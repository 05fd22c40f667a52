//! Type labels for entries: the file-name extension is looked up,
//! ASCII-case-insensitively, in a fixed table; unknown extensions fall
//! back to a generic label built from the uppercased extension.

use vstd::prelude::*;

verus! {

/// `p` with any run of trailing slashes removed.
pub open spec fn strip_trailing_slashes(p: Seq<char>) -> Seq<char>
    decreases p.len(),
{
    if p.len() > 0 && p.last() == '/' {
        strip_trailing_slashes(p.drop_last())
    } else {
        p
    }
}

/// The longest suffix of `q` that holds no slash.
pub open spec fn leaf_seq(q: Seq<char>) -> Seq<char>
    decreases q.len(),
{
    if q.len() == 0 || q.last() == '/' {
        Seq::empty()
    } else {
        leaf_seq(q.drop_last()).push(q.last())
    }
}

/// The final path component of `p`, ignoring trailing slashes, as
/// `Path::file_name` finds it.
pub open spec fn path_leaf(p: Seq<char>) -> Seq<char> {
    leaf_seq(strip_trailing_slashes(p))
}

/// Index of the last `.` in `l`, or `-1` if there is none.
pub open spec fn last_dot_pos(l: Seq<char>) -> int
    decreases l.len(),
{
    if l.len() == 0 {
        -1
    } else if l.last() == '.' {
        l.len() - 1
    } else {
        last_dot_pos(l.drop_last())
    }
}

/// The extension of `p`, as `Path::extension` reads it: the part of the
/// final component after its last `.`, provided that dot is not the
/// component's first character.
pub open spec fn extension_spec(p: Seq<char>) -> Option<Seq<char>> {
    if last_dot_pos(path_leaf(p)) > 0 {
        Some(path_leaf(p).skip(last_dot_pos(path_leaf(p)) + 1))
    } else {
        None
    }
}

pub proof fn lemma_strip_trailing(p: Seq<char>, b: int)
    requires
        0 <= b <= p.len(),
        forall|j: int| b <= j < p.len() ==> p[j] == '/',
        b > 0 ==> p[b - 1] != '/',
    ensures
        strip_trailing_slashes(p) == p.take(b),
    decreases p.len(),
{
    if b < p.len() {
        assert(p.last() == '/');
        lemma_strip_trailing(p.drop_last(), b);
        assert(p.drop_last().take(b) =~= p.take(b));
    } else {
        assert(p.take(b) =~= p);
        if b > 0 {
            assert(p.last() != '/');
        }
    }
}

proof fn lemma_leaf_skip(q: Seq<char>, a: int)
    requires
        0 <= a <= q.len(),
        forall|j: int| a <= j < q.len() ==> q[j] != '/',
        a > 0 ==> q[a - 1] == '/',
    ensures
        leaf_seq(q) == q.skip(a),
    decreases q.len(),
{
    if q.len() > a {
        assert(q.last() != '/');
        lemma_leaf_skip(q.drop_last(), a);
        assert(leaf_seq(q) == leaf_seq(q.drop_last()).push(q.last()));
        assert(q.drop_last().skip(a).push(q.last()) =~= q.skip(a));
    } else {
        assert(q.skip(a) =~= Seq::<char>::empty());
        if a > 0 {
            assert(q.last() == '/');
        }
    }
}

proof fn lemma_last_dot(l: Seq<char>, d: int)
    requires
        0 <= d <= l.len(),
        forall|j: int| d <= j < l.len() ==> l[j] != '.',
        d > 0 ==> l[d - 1] == '.',
    ensures
        last_dot_pos(l) == d - 1,
    decreases l.len(),
{
    if l.len() > d {
        assert(l.last() != '.');
        lemma_last_dot(l.drop_last(), d);
    } else {
        if d > 0 {
            assert(l.last() == '.');
        }
    }
}

/// The extension of a path, if the final component has one.
pub fn extension_of(p: &str) -> (r: Option<String>)
    ensures
        (r is Some) == (extension_spec(p@) is Some),
        r is Some ==> r->0@ == extension_spec(p@)->0,
{
    let n = p.unicode_len();
    let mut b: usize = n;
    while b > 0 && p.get_char(b - 1) == '/'
        invariant
            b <= n,
            n == p@.len(),
            forall|j: int| b <= j < n ==> p@[j] == '/',
        decreases b,
    {
        b = b - 1;
    }
    proof {
        lemma_strip_trailing(p@, b as int);
    }
    let ghost q = p@.take(b as int);
    let mut a: usize = b;
    while a > 0 && p.get_char(a - 1) != '/'
        invariant
            a <= b <= n,
            n == p@.len(),
            forall|j: int| a <= j < b ==> p@[j] != '/',
        decreases a,
    {
        a = a - 1;
    }
    proof {
        assert(forall|j: int| a <= j < q.len() ==> q[j] != '/');
        lemma_leaf_skip(q, a as int);
    }
    let ghost l = q.skip(a as int);
    let mut d: usize = b;
    while d > a && p.get_char(d - 1) != '.'
        invariant
            a <= d <= b <= n,
            n == p@.len(),
            forall|j: int| d <= j < b ==> p@[j] != '.',
        decreases d,
    {
        d = d - 1;
    }
    proof {
        assert(l.len() == b - a);
        assert(forall|j: int| d - a <= j < l.len() ==> l[j] != '.');
        if d > a {
            assert(l[d - a - 1] == p@[d - 1]);
        }
        lemma_last_dot(l, d - a);
        assert(last_dot_pos(path_leaf(p@)) == d - a - 1);
    }
    if d > a + 1 {
        let e = p.substring_char(d, b);
        proof {
            assert(e@ =~= l.skip(d - a));
        }
        Some(String::from_str(e))
    } else {
        None
    }
}

/// The lowercase form of an ASCII code point; others are unchanged.
pub open spec fn ascii_lower(u: u32) -> int {
    if 65 <= u <= 90 {
        u + 32
    } else {
        u as int
    }
}

/// `e` equals `k` up to ASCII case on `e`'s side.
pub open spec fn key_matches(e: Seq<char>, k: Seq<char>) -> bool {
    e.len() == k.len() && (forall|i: int|
        0 <= i < e.len() ==> ascii_lower(e[i] as u32) == (k[i] as u32))
}

/// Decides `key_matches`.
pub fn key_match(e: &str, k: &str) -> (r: bool)
    ensures
        r == key_matches(e@, k@),
{
    let en = e.unicode_len();
    let kn = k.unicode_len();
    if en != kn {
        return false;
    }
    let mut i: usize = 0;
    while i < en
        invariant
            i <= en,
            en == e@.len(),
            en == k@.len(),
            forall|j: int| 0 <= j < i ==> ascii_lower(e@[j] as u32) == (k@[j] as u32),
        decreases en - i,
    {
        let cu = e.get_char(i) as u32;
        let lu = if 65 <= cu && cu <= 90 {
            cu + 32
        } else {
            cu
        };
        if lu != k.get_char(i) as u32 {
            return false;
        }
        i = i + 1;
    }
    true
}

/// What `str::to_uppercase` returns; the result depends on the
/// characters alone.
pub uninterp spec fn upper_of(s: Seq<char>) -> Seq<char>;

/// Relies on `str::to_uppercase`: the Unicode uppercase mapping of each
/// character, with an empty result for an empty input.
#[verifier::external_body]
fn uppercase_str(s: &str) -> (r: String)
    ensures
        r@ == upper_of(s@),
        s@.len() == 0 ==> r@.len() == 0,
{
    s.to_uppercase()
}

/// The label of a known extension, or the generic uppercased-extension
/// label for the rest.
pub open spec fn label_for_ext(e: Seq<char>) -> Seq<char> {
    if key_matches(e, "txt"@) {
        "文本文档"@
    } else if key_matches(e, "jpg"@) || key_matches(e, "jpeg"@) || key_matches(e, "png"@)
        || key_matches(e, "gif"@) || key_matches(e, "bmp"@) {
        "图片"@
    } else if key_matches(e, "pdf"@) {
        "PDF文档"@
    } else if key_matches(e, "doc"@) || key_matches(e, "docx"@) {
        "Word文档"@
    } else if key_matches(e, "xls"@) || key_matches(e, "xlsx"@) {
        "Excel表格"@
    } else if key_matches(e, "ppt"@) || key_matches(e, "pptx"@) {
        "PowerPoint演示文稿"@
    } else if key_matches(e, "zip"@) || key_matches(e, "rar"@) || key_matches(e, "7z"@)
        || key_matches(e, "tar"@) || key_matches(e, "gz"@) || key_matches(e, "bz2"@) {
        "压缩文件"@
    } else if key_matches(e, "exe"@) || key_matches(e, "msi"@) {
        "可执行文件"@
    } else if key_matches(e, "dll"@) {
        "应用扩展"@
    } else if key_matches(e, "ini"@) || key_matches(e, "cfg"@) || key_matches(e, "conf"@)
        || key_matches(e, "json"@) || key_matches(e, "xml"@) || key_matches(e, "yaml"@)
        || key_matches(e, "toml"@) {
        "配置文件"@
    } else if key_matches(e, "log"@) {
        "日志文件"@
    } else if key_matches(e, "md"@) {
        "Markdown文件"@
    } else if key_matches(e, "html"@) || key_matches(e, "htm"@) {
        "HTML文档"@
    } else if key_matches(e, "css"@) {
        "样式表"@
    } else if key_matches(e, "js"@) || key_matches(e, "ts"@) {
        "脚本文件"@
    } else if key_matches(e, "py"@) {
        "Python脚本"@
    } else if key_matches(e, "java"@) {
        "Java源文件"@
    } else if key_matches(e, "c"@) || key_matches(e, "cpp"@) || key_matches(e, "h"@) {
        "C/C++源文件"@
    } else if key_matches(e, "cs"@) {
        "C#源文件"@
    } else if key_matches(e, "sh"@) {
        "Shell脚本"@
    } else if key_matches(e, "bat"@) {
        "批处理脚本"@
    } else if key_matches(e, "mp3"@) || key_matches(e, "wav"@) || key_matches(e, "ogg"@)
        || key_matches(e, "flac"@) {
        "音频文件"@
    } else if key_matches(e, "mp4"@) || key_matches(e, "mkv"@) || key_matches(e, "avi"@)
        || key_matches(e, "mov"@) || key_matches(e, "wmv"@) {
        "视频文件"@
    } else if key_matches(e, "iso"@) {
        "镜像文件"@
    } else {
        upper_of(e) + "文件"@
    }
}

/// The label of a file path: by extension where one exists, else the
/// generic file label.
pub open spec fn file_label_spec(p: Seq<char>) -> Seq<char> {
    if extension_spec(p) is Some {
        label_for_ext(extension_spec(p)->0)
    } else {
        "文件"@
    }
}

/// The label of a directory entry.
pub open spec fn dir_label() -> Seq<char> {
    "文件夹"@
}

/// Returns the directory label.
pub fn dir_label_str() -> (r: String)
    ensures
        r@ == dir_label(),
{
    String::from_str("文件夹")
}

/// Computes the type label of a file path from its extension.
pub fn file_type_label(p: &str) -> (r: String)
    ensures
        r@ == file_label_spec(p@),
{
    match extension_of(p) {
        None => String::from_str("文件"),
        Some(ext) => {
            let e = ext.as_str();
            if key_match(e, "txt") {
                String::from_str("文本文档")
            } else if key_match(e, "jpg") || key_match(e, "jpeg") || key_match(e, "png")
                || key_match(e, "gif") || key_match(e, "bmp") {
                String::from_str("图片")
            } else if key_match(e, "pdf") {
                String::from_str("PDF文档")
            } else if key_match(e, "doc") || key_match(e, "docx") {
                String::from_str("Word文档")
            } else if key_match(e, "xls") || key_match(e, "xlsx") {
                String::from_str("Excel表格")
            } else if key_match(e, "ppt") || key_match(e, "pptx") {
                String::from_str("PowerPoint演示文稿")
            } else if key_match(e, "zip") || key_match(e, "rar") || key_match(e, "7z")
                || key_match(e, "tar") || key_match(e, "gz") || key_match(e, "bz2") {
                String::from_str("压缩文件")
            } else if key_match(e, "exe") || key_match(e, "msi") {
                String::from_str("可执行文件")
            } else if key_match(e, "dll") {
                String::from_str("应用扩展")
            } else if key_match(e, "ini") || key_match(e, "cfg") || key_match(e, "conf")
                || key_match(e, "json") || key_match(e, "xml") || key_match(e, "yaml")
                || key_match(e, "toml") {
                String::from_str("配置文件")
            } else if key_match(e, "log") {
                String::from_str("日志文件")
            } else if key_match(e, "md") {
                String::from_str("Markdown文件")
            } else if key_match(e, "html") || key_match(e, "htm") {
                String::from_str("HTML文档")
            } else if key_match(e, "css") {
                String::from_str("样式表")
            } else if key_match(e, "js") || key_match(e, "ts") {
                String::from_str("脚本文件")
            } else if key_match(e, "py") {
                String::from_str("Python脚本")
            } else if key_match(e, "java") {
                String::from_str("Java源文件")
            } else if key_match(e, "c") || key_match(e, "cpp") || key_match(e, "h") {
                String::from_str("C/C++源文件")
            } else if key_match(e, "cs") {
                String::from_str("C#源文件")
            } else if key_match(e, "sh") {
                String::from_str("Shell脚本")
            } else if key_match(e, "bat") {
                String::from_str("批处理脚本")
            } else if key_match(e, "mp3") || key_match(e, "wav") || key_match(e, "ogg")
                || key_match(e, "flac") {
                String::from_str("音频文件")
            } else if key_match(e, "mp4") || key_match(e, "mkv") || key_match(e, "avi")
                || key_match(e, "mov") || key_match(e, "wmv") {
                String::from_str("视频文件")
            } else if key_match(e, "iso") {
                String::from_str("镜像文件")
            } else {
                let mut lbl = uppercase_str(e);
                lbl.append("文件");
                lbl
            }
        },
    }
}

} // verus!
