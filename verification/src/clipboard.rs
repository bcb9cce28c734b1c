//! Building clipboard items from copied text or files: path candidates,
//! clean relative paths, summaries and content signatures. Paths are Unix
//! paths held as strings; the file system is read by the caller.

use vstd::prelude::*;
use vstd::utf8::encode_utf8;

use crate::bytes::append_bytes;
use crate::discovery::{encode_hex, hex_spec};
use crate::error::{crypto_error, AppError, AppResult};
use crate::ids::{new_random_id, now_unix_nanos};
use crate::model::{
    file_views, opt_view, ClipboardItem, ClipboardKind, ClipboardPayload, FileDescriptor, FileView,
    PayloadView,
};
use crate::security::{sha256, sha256_of};
use crate::text::{
    chars_of, decimal_chars, decimal_spec, extend_chars, extend_str, lines_spec, split_lines,
    starts_with_chars, starts_with_spec, string_of, take_chars, take_chars_spec, trim_chars, trim_spec,
    char_rows,
};

verus! {

/// The path a line of copied text names: the trimmed line, without a
/// `file://` prefix, when it is an absolute path.
pub open spec fn candidate_path_spec(raw: Seq<char>) -> Option<Seq<char>> {
    let t = trim_spec(raw);
    let p = if starts_with_spec(t, "file://"@) { t.skip(7) } else { t };
    if t.len() == 0 {
        None
    } else if p.len() > 0 && p[0] == '/' {
        Some(p)
    } else {
        None
    }
}

/// A copied line names a path exactly when, once trimmed, it is an absolute
/// path or a `file://` URI of one: `file://` followed by `/q` names `/q`, a
/// trimmed line `/q` names itself, and a line that is neither names nothing.
pub proof fn lemma_candidate_path(raw: Seq<char>, q: Seq<char>)
    ensures
        trim_spec(raw) == "file://"@ + q && q.len() > 0 && q[0] == '/' ==> candidate_path_spec(raw) == Some(q),
        trim_spec(raw) == q && q.len() > 0 && q[0] == '/' ==> candidate_path_spec(raw) == Some(q),
        candidate_path_spec(raw) matches Some(p) ==> p.len() > 0 && p[0] == '/' && (trim_spec(raw) == p || trim_spec(raw)
            == "file://"@ + p),
{
    reveal_strlit("file://");
    let t = trim_spec(raw);
    if t == "file://"@ + q {
        assert(t.take(7) =~= "file://"@);
        assert(t.skip(7) =~= q);
    }
    if t == q && q.len() > 0 && q[0] == '/' {
        assert(!starts_with_spec(t, "file://"@)) by {
            if starts_with_spec(t, "file://"@) {
                assert(t.take(7)[0] == t[0]);
            }
        }
    }
    if candidate_path_spec(raw) is Some {
        if starts_with_spec(t, "file://"@) {
            assert(t =~= "file://"@ + t.skip(7));
        }
    }
}

/// Reads one line of copied text as a path.
pub fn parse_candidate_path(raw: &str) -> (r: Option<String>)
    ensures
        opt_view(r) == candidate_path_spec(raw@),
{
    let v = chars_of(raw);
    let t = trim_chars(v.as_slice());
    if t.len() == 0 {
        return None;
    }
    let prefix = chars_of("file://");
    proof {
        reveal_strlit("file://");
    }
    let mut p: Vec<char> = Vec::new();
    if starts_with_chars(t.as_slice(), prefix.as_slice()) {
        let mut i: usize = 7;
        while i < t.len()
            invariant
                7 <= i <= t@.len(),
                p@ == t@.subrange(7, i as int),
            decreases t@.len() - i,
        {
            p.push(t[i]);
            proof {
                assert(t@.subrange(7, i + 1) =~= t@.subrange(7, i as int).push(t@[i as int]));
            }
            i = i + 1;
        }
        proof {
            assert(t@.subrange(7, t@.len() as int) =~= t@.skip(7));
        }
    } else {
        p = t;
    }
    if p.len() > 0 && p[0] == '/' {
        Some(string_of(p.as_slice()))
    } else {
        None
    }
}

/// The paths named by copied text, one per line, when every line names an
/// absolute path and there is at least one.
pub open spec fn candidate_paths_spec(text: Seq<char>) -> Option<Seq<Seq<char>>> {
    let ls = lines_spec(text);
    if ls.len() > 0 && forall|i: int| 0 <= i < ls.len() ==> (#[trigger] candidate_path_spec(ls[i])) is Some {
        Some(ls.map_values(|l: Seq<char>| candidate_path_spec(l)->0))
    } else {
        None
    }
}

/// The paths named by copied text, when it is made only of paths; the caller
/// checks that they exist before the text is taken as a file list.
pub fn candidate_paths(text: &str) -> (r: Option<Vec<String>>)
    ensures
        match r {
            Some(v) => candidate_paths_spec(text@) == Some(v@.map_values(|s: String| s@)),
            None => candidate_paths_spec(text@) is None,
        },
{
    let v = chars_of(text);
    let lines = split_lines(v.as_slice());
    let ghost ls = lines_spec(text@);
    if lines.len() == 0 {
        return None;
    }
    let mut out: Vec<String> = Vec::new();
    let mut i: usize = 0;
    while i < lines.len()
        invariant
            i <= lines@.len(),
            char_rows(lines@) == ls,
            ls == lines_spec(text@),
            out@.len() == i,
            forall|k: int| 0 <= k < i ==> (#[trigger] candidate_path_spec(ls[k])) is Some && out@[k]@ == candidate_path_spec(ls[k])->0,
        decreases lines@.len() - i,
    {
        let line = string_of(lines[i].as_slice());
        proof {
            assert(ls[i as int] == lines@[i as int]@);
        }
        match parse_candidate_path(line.as_str()) {
            Some(p) => out.push(p),
            None => {
                proof {
                    assert(candidate_path_spec(ls[i as int]) is None);
                }
                return None;
            },
        }
        i = i + 1;
    }
    proof {
        assert(out@.map_values(|s: String| s@) =~= ls.map_values(|l: Seq<char>| candidate_path_spec(l)->0));
    }
    Some(out)
}

/// A path component that names a file or directory (not empty, `.` or `..`).
pub open spec fn normal_component(c: Seq<char>) -> bool {
    c.len() > 0 && c != seq!['.'] && c != seq!['.', '.']
}

/// Appends a component to a `/`-joined path when it is a normal one.
pub open spec fn push_component(out: Seq<char>, c: Seq<char>) -> Seq<char> {
    if !normal_component(c) {
        out
    } else if out.len() == 0 {
        c
    } else {
        out + seq!['/'] + c
    }
}

/// Scanning a path left to right: the normal components joined so far, and
/// the component being read.
pub open spec fn scan_components(s: Seq<char>) -> (Seq<char>, Seq<char>)
    decreases s.len(),
{
    if s.len() == 0 {
        (seq![], seq![])
    } else {
        let (out, cur) = scan_components(s.drop_last());
        if s.last() == '/' {
            (push_component(out, cur), seq![])
        } else {
            (out, cur.push(s.last()))
        }
    }
}

/// Backslashes turned into slashes.
pub open spec fn slashes(s: Seq<char>) -> Seq<char> {
    s.map_values(|c: char| if c == '\\' { '/' } else { c })
}

/// A relative path kept to its normal components (no root, no `.`, no
/// `..`, no empty component), joined by `/`, with backslashes as `/`.
pub open spec fn sanitize_spec(path: Seq<char>) -> Seq<char> {
    let (out, cur) = scan_components(path);
    slashes(push_component(out, cur))
}

fn is_normal_component(c: &Vec<char>) -> (r: bool)
    ensures
        r == normal_component(c@),
{
    if c.len() == 0 {
        return false;
    }
    if c.len() == 1 && c[0] == '.' {
        proof {
            assert(c@ =~= seq!['.']);
        }
        return false;
    }
    if c.len() == 2 && c[0] == '.' && c[1] == '.' {
        proof {
            assert(c@ =~= seq!['.', '.']);
        }
        return false;
    }
    proof {
        if c@.len() == 1 {
            assert(c@ != seq!['.']) by {
                assert(c@[0] != '.');
            }
        }
        if c@.len() == 2 {
            assert(c@ != seq!['.', '.']) by {
                assert(c@[0] != '.' || c@[1] != '.');
            }
        }
    }
    true
}

fn push_component_exec(out: &mut Vec<char>, c: &Vec<char>)
    ensures
        final(out)@ == push_component(old(out)@, c@),
{
    if is_normal_component(c) {
        if out.len() > 0 {
            out.push('/');
        }
        extend_chars(out, c.as_slice());
    }
}

/// Keeps a relative path to its normal components, joined by `/`.
pub fn sanitize_relative_path(path: &str) -> (r: String)
    ensures
        r@ == sanitize_spec(path@),
{
    let v = chars_of(path);
    let mut out: Vec<char> = Vec::new();
    let mut cur: Vec<char> = Vec::new();
    let mut i: usize = 0;
    while i < v.len()
        invariant
            i <= v@.len(),
            v@ == path@,
            (out@, cur@) == scan_components(v@.take(i as int)),
        decreases v@.len() - i,
    {
        proof {
            assert(v@.take(i + 1).drop_last() =~= v@.take(i as int));
        }
        if v[i] == '/' {
            push_component_exec(&mut out, &cur);
            cur = Vec::new();
        } else {
            cur.push(v[i]);
        }
        i = i + 1;
    }
    proof {
        assert(v@.take(i as int) =~= v@);
    }
    push_component_exec(&mut out, &cur);
    let mut res: Vec<char> = Vec::new();
    let mut k: usize = 0;
    while k < out.len()
        invariant
            k <= out@.len(),
            res@ == slashes(out@).take(k as int),
        decreases out@.len() - k,
    {
        let c = out[k];
        res.push(if c == '\\' { '/' } else { c });
        proof {
            assert(res@ =~= slashes(out@).take(k + 1));
        }
        k = k + 1;
    }
    proof {
        assert(slashes(out@).take(k as int) =~= slashes(out@));
    }
    string_of(res.as_slice())
}

/// The first line that is not blank.
pub open spec fn first_nonblank(ls: Seq<Seq<char>>) -> Option<Seq<char>>
    decreases ls.len(),
{
    if ls.len() == 0 {
        None
    } else if trim_spec(ls[0]).len() > 0 {
        Some(ls[0])
    } else {
        first_nonblank(ls.drop_first())
    }
}

/// The summary of a text item: its first non-blank line (the whole text when
/// every line is blank), cut to 80 characters.
pub open spec fn summarize_text_spec(text: Seq<char>) -> Seq<char> {
    let line = match first_nonblank(lines_spec(text)) {
        Some(l) => l,
        None => text,
    };
    take_chars_spec(line, 80)
}

/// Summarizes a text item.
pub fn summarize_text(text: &str) -> (r: String)
    ensures
        r@ == summarize_text_spec(text@),
{
    let v = chars_of(text);
    let lines = split_lines(v.as_slice());
    let ghost ls = lines_spec(text@);
    let mut i: usize = 0;
    proof {
        assert(ls.skip(0) =~= ls);
    }
    while i < lines.len()
        invariant
            i <= lines@.len(),
            char_rows(lines@) == ls,
            ls == lines_spec(text@),
            first_nonblank(ls) == first_nonblank(ls.skip(i as int)),
        decreases lines@.len() - i,
    {
        proof {
            assert(ls.skip(i as int).drop_first() =~= ls.skip(i + 1));
            assert(ls.skip(i as int)[0] == lines@[i as int]@);
        }
        let t = trim_chars(lines[i].as_slice());
        if t.len() > 0 {
            proof {
                assert(first_nonblank(ls.skip(i as int)) == Some(ls[i as int]));
            }
            let head = take_chars(lines[i].as_slice(), 80);
            return string_of(head.as_slice());
        }
        i = i + 1;
    }
    proof {
        assert(ls.skip(i as int) =~= Seq::<Seq<char>>::empty());
    }
    let head = take_chars(v.as_slice(), 80);
    string_of(head.as_slice())
}

/// The summary of a file item: the path of its file, or the count and the
/// first path.
pub open spec fn summarize_files_spec(files: Seq<FileView>) -> Seq<char> {
    if files.len() == 0 {
        "无文件"@
    } else if files.len() == 1 {
        files[0].relative_path
    } else {
        decimal_spec(files.len()) + " 个文件 · "@ + files[0].relative_path
    }
}

/// Summarizes a file item.
pub fn summarize_files(files: &[FileDescriptor]) -> (r: String)
    ensures
        r@ == summarize_files_spec(file_views(files@)),
{
    if files.len() == 0 {
        "无文件".to_string()
    } else if files.len() == 1 {
        files[0].relative_path.clone()
    } else {
        let mut v = decimal_chars(files.len() as u64);
        extend_str(&mut v, " 个文件 · ");
        extend_str(&mut v, files[0].relative_path.as_str());
        string_of(v.as_slice())
    }
}

/// The bytes hashed for a signature: the prefix, then each value preceded by
/// a zero byte.
pub open spec fn hash_input(prefix: Seq<char>, values: Seq<Seq<char>>) -> Seq<u8>
    decreases values.len(),
{
    if values.len() == 0 {
        encode_utf8(prefix)
    } else {
        hash_input(prefix, values.drop_last()) + seq![0u8] + encode_utf8(values.last())
    }
}

/// A content signature: SHA-256 of the prefix and the values, in hex.
pub open spec fn signature_spec(prefix: Seq<char>, values: Seq<Seq<char>>) -> Seq<char> {
    hex_spec(sha256_of(hash_input(prefix, values)))
}

/// Hashes a prefix and values into a content signature.
pub fn hash_strings(prefix: &str, values: &Vec<String>) -> (r: String)
    ensures
        r@ == signature_spec(prefix@, values@.map_values(|s: String| s@)),
{
    let ghost vs = values@.map_values(|s: String| s@);
    let mut bytes: Vec<u8> = Vec::new();
    append_bytes(&mut bytes, prefix.as_bytes());
    let mut i: usize = 0;
    while i < values.len()
        invariant
            i <= values@.len(),
            vs == values@.map_values(|s: String| s@),
            bytes@ == hash_input(prefix@, vs.take(i as int)),
        decreases values@.len() - i,
    {
        proof {
            assert(vs.take(i + 1).drop_last() =~= vs.take(i as int));
            assert(vs.take(i + 1).last() == values@[i as int]@);
        }
        bytes.push(0u8);
        append_bytes(&mut bytes, values[i].as_str().as_bytes());
        proof {
            assert(bytes@ =~= hash_input(prefix@, vs.take(i as int)) + seq![0u8] + encode_utf8(values@[i as int]@));
        }
        i = i + 1;
    }
    proof {
        assert(vs.take(i as int) =~= vs);
    }
    let digest = sha256(bytes.as_slice());
    encode_hex(digest.as_slice())
}

/// The line of a file in a file item's signature: path and size.
pub open spec fn file_line(f: FileView) -> Seq<char> {
    f.relative_path + seq![':'] + decimal_spec(f.size_bytes as nat)
}

/// The signature of a file item.
pub open spec fn files_signature_spec(files: Seq<FileView>) -> Seq<char> {
    signature_spec("files"@, files.map_values(|f: FileView| file_line(f)))
}

/// The signature of a text item.
pub open spec fn text_signature_spec(text: Seq<char>) -> Seq<char> {
    signature_spec("text"@, seq![text])
}

/// The error reported when no random id can be drawn.
pub open spec fn id_failure(e: AppError) -> bool {
    e.is_crypto("Failed to generate a random id."@)
}

/// A new file item made of the given files, with a fresh id and the current
/// time; fails only when the system generator yields no id.
pub fn build_item_from_descriptors(
    files: Vec<FileDescriptor>,
    source_device_id: Option<String>,
    source_device_name: Option<String>,
    is_remote: bool,
) -> (r: AppResult<ClipboardItem>)
    ensures
        match r {
            Ok(item) => {
                &&& item.kind == ClipboardKind::Files
                &&& item.summary@ == summarize_files_spec(file_views(files@))
                &&& item.signature@ == files_signature_spec(file_views(files@))
                &&& item.payload@ == PayloadView::Files(file_views(files@))
                &&& item.source_device_id == source_device_id
                &&& item.source_device_name == source_device_name
                &&& item.is_remote == is_remote
                &&& !item.is_pinned
            },
            Err(e) => id_failure(e),
        },
{
    let summary = summarize_files(files.as_slice());
    let mut lines: Vec<String> = Vec::new();
    let ghost fv = file_views(files@);
    let mut i: usize = 0;
    while i < files.len()
        invariant
            i <= files@.len(),
            fv == file_views(files@),
            lines@.map_values(|s: String| s@) == fv.map_values(|f: FileView| file_line(f)).take(i as int),
        decreases files@.len() - i,
    {
        let mut l = chars_of(files[i].relative_path.as_str());
        l.push(':');
        let d = decimal_chars(files[i].size_bytes);
        extend_chars(&mut l, d.as_slice());
        let ghost before = lines@.map_values(|s: String| s@);
        let line = string_of(l.as_slice());
        proof {
            assert(fv[i as int] == files@[i as int]@);
            assert(line@ =~= file_line(fv[i as int]));
        }
        lines.push(line);
        proof {
            assert(fv[i as int] == files@[i as int]@);
            assert(lines@.map_values(|s: String| s@) =~= before.push(file_line(fv[i as int])));
            assert(fv.map_values(|f: FileView| file_line(f)).take(i + 1) =~= fv.map_values(|f: FileView| file_line(f)).take(i as int).push(file_line(fv[i as int])));
        }
        i = i + 1;
    }
    proof {
        assert(fv.map_values(|f: FileView| file_line(f)).take(i as int) =~= fv.map_values(|f: FileView| file_line(f)));
    }
    let signature = hash_strings("files", &lines);
    let id = match new_random_id() {
        Some(id) => id,
        None => {
            return Err(crypto_error("Failed to generate a random id."));
        },
    };
    Ok(ClipboardItem {
        id,
        kind: ClipboardKind::Files,
        summary,
        signature,
        payload: ClipboardPayload::Files(files),
        source_device_id,
        source_device_name,
        created_at: now_unix_nanos(),
        is_remote,
        is_pinned: false,
    })
}

/// A new clipboard item for copied text, with a fresh id and the current
/// time. When the caller found that the text names existing files
/// (`detected_files`), the item is a file item made of them.
pub fn build_item_from_text(
    text: &str,
    detected_files: Option<Vec<FileDescriptor>>,
    source_device_id: Option<String>,
    source_device_name: Option<String>,
    is_remote: bool,
) -> (r: AppResult<ClipboardItem>)
    ensures
        r matches Err(e) ==> id_failure(e),
        r matches Ok(item) ==> {
            &&& item.source_device_id == source_device_id
            &&& item.source_device_name == source_device_name
            &&& item.is_remote == is_remote
            &&& !item.is_pinned
            &&& match detected_files {
                Some(files) => {
                    &&& item.kind == ClipboardKind::Files
                    &&& item.summary@ == summarize_files_spec(file_views(files@))
                    &&& item.signature@ == files_signature_spec(file_views(files@))
                    &&& item.payload@ == PayloadView::Files(file_views(files@))
                },
                None => {
                    &&& item.kind == ClipboardKind::Text
                    &&& item.summary@ == summarize_text_spec(text@)
                    &&& item.signature@ == text_signature_spec(text@)
                    &&& item.payload@ == PayloadView::Text(text@)
                },
            }
        },
{
    match detected_files {
        Some(files) => build_item_from_descriptors(files, source_device_id, source_device_name, is_remote),
        None => {
            let mut values: Vec<String> = Vec::new();
            values.push(text.to_string());
            proof {
                assert(values@.map_values(|s: String| s@) =~= seq![text@]);
            }
            let id = match new_random_id() {
                Some(id) => id,
                None => {
                    return Err(crypto_error("Failed to generate a random id."));
                },
            };
            Ok(ClipboardItem {
                id,
                kind: ClipboardKind::Text,
                summary: summarize_text(text),
                signature: hash_strings("text", &values),
                payload: ClipboardPayload::Text(text.to_string()),
                source_device_id,
                source_device_name,
                created_at: now_unix_nanos(),
                is_remote,
                is_pinned: false,
            })
        },
    }
}

/// The descriptor of a copied file: named after its file name (or the
/// relative path when it has none), with a clean relative path, and the
/// path it was copied from as both source and local copy.
pub fn descriptor_for(path: String, file_name: Option<String>, relative: &str, size_bytes: u64) -> (r: FileDescriptor)
    ensures
        r.name@ == match file_name {
            Some(n) => n@,
            None => relative@,
        },
        r.relative_path@ == sanitize_spec(relative@),
        r.size_bytes == size_bytes,
        r.source_path == Some(path),
        r.local_path == Some(path),
{
    FileDescriptor {
        name: match file_name {
            Some(n) => n,
            None => relative.to_string(),
        },
        relative_path: sanitize_relative_path(relative),
        size_bytes,
        source_path: Some(path.clone()),
        local_path: Some(path),
    }
}

} // verus!
