//! Mapping of EVE log files to character names: the `Listener:` header,
//! the file-name filter, and the choice of the newest file per character.
use vstd::prelude::*;
use vstd::utf8::*;
use crate::decode::{decode_utf16_prefix, split_nl, lemma_split_nl_len, utf16_step};
use crate::names::{ascii_ci_eq, distinct_keys, has_key, lower_byte, NameMap};
use crate::parse::starts_with;
use crate::text::{
    is_ws, lemma_trim_keeps, lemma_trim_start_after_ws, trim_end, trim_start,
    chars_of, slice_of, string_of, to_lowercase, trim, trim_start_bom, trim_start_bom_vec, trim_vec,
    unicode_lowercase,
};

verus! {

/// Max age of a log file that still counts as "this session": 24 hours, in seconds.
pub const MAX_LOG_AGE_SECS: u64 = 86_400;

/// `b` ends with `s`.
pub open spec fn ends_with_bytes(b: Seq<u8>, s: Seq<u8>) -> bool {
    s.len() <= b.len() && b.subrange(b.len() - s.len(), b.len() as int) == s
}

/// Slicing the name at byte 6 would cut a character in two.
pub open spec fn chatlog_name_splits_char(name: Seq<char>) -> bool {
    encode_utf8(name).len() >= 6 && !is_char_boundary(encode_utf8(name), 6)
}

/// A chatlog of the Local channel: `Local_*.txt`, the prefix in any ASCII case.
pub open spec fn is_chatlog_name(name: Seq<char>) -> bool {
    let b = encode_utf8(name);
    &&& b.len() >= 6
    &&& ascii_ci_eq(b.subrange(0, 6), encode_utf8("Local_"@))
    &&& ends_with_bytes(b, encode_utf8(".txt"@))
}

fn bytes_ci_eq_prefix(b: &[u8], p: &[u8], n: usize) -> (r: bool)
    requires
        n <= b@.len(),
    ensures
        r == ascii_ci_eq(b@.subrange(0, n as int), p@),
{
    if p.len() != n {
        return false;
    }
    let mut i: usize = 0;
    while i < n
        invariant
            n <= b@.len(),
            p@.len() == n,
            i <= n,
            forall|k: int| 0 <= k < i ==> lower_byte(b@[k]) == lower_byte(p@[k]),
        decreases n - i,
    {
        let x: u8 = if 65 <= b[i] && b[i] <= 90 {
            b[i] + 32
        } else {
            b[i]
        };
        let y: u8 = if 65 <= p[i] && p[i] <= 90 {
            p[i] + 32
        } else {
            p[i]
        };
        if x != y {
            assert(lower_byte(b@.subrange(0, n as int)[i as int]) != lower_byte(p@[i as int]));
            return false;
        }
        i += 1;
    }
    assert forall|k: int| 0 <= k < n implies #[trigger] lower_byte(b@.subrange(0, n as int)[k])
        == lower_byte(p@[k]) by {}
    true
}

fn ends_with(b: &[u8], s: &[u8]) -> (r: bool)
    ensures
        r == ends_with_bytes(b@, s@),
{
    if s.len() > b.len() {
        return false;
    }
    let off = b.len() - s.len();
    let mut i: usize = 0;
    while i < s.len()
        invariant
            s@.len() <= b@.len(),
            b@.len() <= usize::MAX,
            off == b@.len() - s@.len(),
            i <= s@.len(),
            forall|k: int| 0 <= k < i ==> b@[off + k] == s@[k],
        decreases s@.len() - i,
    {
        if b[off + i] != s[i] {
            assert(b@.subrange(off as int, b@.len() as int)[i as int] != s@[i as int]);
            return false;
        }
        i += 1;
    }
    assert(b@.subrange(off as int, b@.len() as int) =~= s@);
    true
}

/// Whether `name` is a Local chatlog file name (`Local_*.txt`).
pub fn is_chatlog_filename(name: &str) -> (r: bool)
    requires
        !chatlog_name_splits_char(name@),
    ensures
        r == is_chatlog_name(name@),
{
    let b = name.as_bytes();
    if b.len() < 6 {
        return false;
    }
    bytes_ci_eq_prefix(b, "Local_".as_bytes(), 6) && ends_with(b, ".txt".as_bytes())
}

/// Whether `is_chatlog_filename` would cut the name in two at byte 6, which
/// it does not accept.
pub fn chatlog_filename_splits_char(name: &str) -> (r: bool)
    ensures
        r == chatlog_name_splits_char(name@),
{
    let b = name.as_bytes();
    b.len() >= 6 && !name.is_char_boundary(6)
}

/// Which directory entries are log files: `*.txt`, and with `chatlogs`
/// only Local chatlogs. Gives whether the file is a chatlog.
pub open spec fn log_file_kind_spec(name: Seq<char>, chatlogs: bool) -> Option<bool> {
    if !ends_with_bytes(encode_utf8(name), encode_utf8(".txt"@)) {
        None
    } else if chatlogs && !is_chatlog_name(name) {
        None
    } else {
        Some(is_chatlog_name(name))
    }
}

/// Whether the directory entry `name` is a log file to consider, and if so
/// whether it is a chatlog.
pub fn log_file_kind(name: &str, chatlogs: bool) -> (r: Option<bool>)
    requires
        ends_with_bytes(encode_utf8(name@), encode_utf8(".txt"@)) ==> !chatlog_name_splits_char(
            name@,
        ),
    ensures
        r == log_file_kind_spec(name@, chatlogs),
{
    if !ends_with(name.as_bytes(), ".txt".as_bytes()) {
        return None;
    }
    let is_chat = is_chatlog_filename(name);
    if chatlogs && !is_chat {
        return None;
    }
    Some(is_chat)
}

/// Whether a file of the given age (seconds and nanoseconds since its last
/// modification; `None` when modified in the future) is older than a session.
pub fn too_old(age: Option<(u64, u32)>) -> (r: bool)
    ensures
        r == (age matches Some((s, n)) && (s > MAX_LOG_AGE_SECS || (s == MAX_LOG_AGE_SECS && n
            > 0))),
{
    match age {
        Some((s, n)) => s > MAX_LOG_AGE_SECS || (s == MAX_LOG_AGE_SECS && n > 0),
        None => false,
    }
}

/// One log file seen in a directory: modification time (nanoseconds,
/// possibly negative, relative to the Unix epoch), path, and its
/// `Listener:` name if it has one.
pub struct LogFile {
    pub mtime: i128,
    pub path: String,
    pub listener: Option<String>,
}

/// The key of a file: its listener, lowercased.
pub open spec fn file_key(f: LogFile) -> Option<Seq<char>> {
    match f.listener {
        Some(l) => Some(unicode_lowercase(l@)),
        None => None,
    }
}

/// File `i` is the newest among the first `n` files with key `k`; among
/// equally new files, the first.
pub open spec fn newest_for(files: Seq<LogFile>, k: Seq<char>, i: int, n: int) -> bool {
    &&& 0 <= i < n <= files.len()
    &&& file_key(files[i]) == Some(k)
    &&& forall|j: int|
        0 <= j < n && #[trigger] file_key(files[j]) == Some(k) ==> files[j].mtime < files[i].mtime
            || (files[j].mtime == files[i].mtime && i <= j)
}

/// The entry names a listener and holds the path of its newest file.
pub open spec fn picked(files: Seq<LogFile>, e: (Seq<char>, String)) -> bool {
    exists|i: int| newest_for(files, e.0, i, files.len() as int) && e.1@ == files[i].path@
}

/// Every entry names a listener and holds the path of its newest file.
pub open spec fn picks_newest(files: Seq<LogFile>, out: Seq<(Seq<char>, String)>) -> bool {
    forall|t: int| 0 <= t < out.len() ==> #[trigger] picked(files, out[t])
}

/// Newest log file per character: for every listener name (lowercased),
/// the path of the newest file with that listener; the first among equally
/// new files.
pub fn newest_logs_by_character(files: &Vec<LogFile>) -> (out: NameMap<String>)
    ensures
        picks_newest(files@, out.view()),
        forall|j: int|
            0 <= j < files@.len() ==> (#[trigger] file_key(files@[j]) matches Some(k) ==> has_key(
                out.view(),
                k,
            )),
{
    let mut best: NameMap<usize> = NameMap::new();
    let mut i: usize = 0;
    while i < files.len()
        invariant
            i <= files@.len(),
            distinct_keys(best.view()),
            forall|t: int|
                0 <= t < best.view().len() ==> newest_for(
                    files@,
                    #[trigger] best.view()[t].0,
                    best.view()[t].1 as int,
                    i as int,
                ),
            forall|j: int|
                0 <= j < i ==> (#[trigger] file_key(files@[j]) matches Some(k) ==> has_key(
                    best.view(),
                    k,
                )),
        decreases files@.len() - i,
    {
        let ghost old_best = best.view();
        if let Some(l) = &files[i].listener {
            let k = to_lowercase(l.as_str());
            let ghost kv = k@;
            assert(file_key(files@[i as int]) == Some(kv));
            match best.index_of(k.as_str()) {
                Some(t) => {
                    let (_name, b) = best.entry(t);
                    let b = *b;
                    assert(newest_for(files@, kv, b as int, i as int));
                    if files[b].mtime < files[i].mtime {
                        best.insert(k, i);
                        assert(best.view() == old_best.update(t as int, (kv, i)));
                        assert forall|u: int| 0 <= u < best.view().len() implies newest_for(
                            files@,
                            #[trigger] best.view()[u].0,
                            best.view()[u].1 as int,
                            i + 1,
                        ) by {
                            if u != t {
                                assert(old_best[u].0 != kv);
                                assert(newest_for(files@, old_best[u].0, old_best[u].1 as int, i as int));
                            }
                        }
                        assert forall|j: int| 0 <= j < i + 1 implies (#[trigger] file_key(files@[j]) matches Some(k2) ==> has_key(
                            best.view(),
                            k2,
                        )) by {
                            if let Some(k2) = file_key(files@[j]) {
                                if j < i {
                                    let w = choose|w: int| 0 <= w < old_best.len() && #[trigger] old_best[w].0 == k2;
                                    assert(best.view()[w].0 == k2);
                                } else {
                                    assert(best.view()[t as int].0 == k2);
                                }
                            }
                        }
                    } else {
                        assert forall|u: int| 0 <= u < best.view().len() implies newest_for(
                            files@,
                            #[trigger] best.view()[u].0,
                            best.view()[u].1 as int,
                            i + 1,
                        ) by {
                            assert(newest_for(files@, old_best[u].0, old_best[u].1 as int, i as int));
                        }
                        assert forall|j: int| 0 <= j < i + 1 implies (#[trigger] file_key(files@[j]) matches Some(k2) ==> has_key(
                            best.view(),
                            k2,
                        )) by {
                            if let Some(k2) = file_key(files@[j]) {
                                if j == i {
                                    assert(best.view()[t as int].0 == k2);
                                }
                            }
                        }
                    }
                },
                None => {
                    assert(!has_key(old_best, kv));
                    best.insert(k, i);
                    assert(best.view() == old_best.push((kv, i)));
                    assert forall|u: int| 0 <= u < best.view().len() implies newest_for(
                        files@,
                        #[trigger] best.view()[u].0,
                        best.view()[u].1 as int,
                        i + 1,
                    ) by {
                        if u < old_best.len() {
                            assert(old_best[u].0 != kv);
                            assert(newest_for(files@, old_best[u].0, old_best[u].1 as int, i as int));
                        } else {
                            assert forall|j: int| 0 <= j < i + 1 && #[trigger] file_key(files@[j]) == Some(kv) implies j == i by {
                                if j < i {
                                    assert(has_key(old_best, kv));
                                }
                            }
                        }
                    }
                    assert forall|j: int| 0 <= j < i + 1 implies (#[trigger] file_key(files@[j]) matches Some(k2) ==> has_key(
                        best.view(),
                        k2,
                    )) by {
                        if let Some(k2) = file_key(files@[j]) {
                            if j < i {
                                let w = choose|w: int| 0 <= w < old_best.len() && #[trigger] old_best[w].0 == k2;
                                assert(best.view()[w].0 == k2);
                            } else {
                                assert(best.view()[old_best.len() as int].0 == k2);
                            }
                        }
                    }
                },
            }
        } else {
            assert forall|u: int| 0 <= u < best.view().len() implies newest_for(
                files@,
                #[trigger] best.view()[u].0,
                best.view()[u].1 as int,
                i + 1,
            ) by {
                assert(newest_for(files@, old_best[u].0, old_best[u].1 as int, i as int));
            }
        }
        i += 1;
    }
    let mut out: NameMap<String> = NameMap::new();
    let mut t: usize = 0;
    while t < best.len()
        invariant
            t <= best.view().len(),
            distinct_keys(best.view()),
            out.view().len() == t,
            forall|u: int|
                0 <= u < best.view().len() ==> newest_for(
                    files@,
                    #[trigger] best.view()[u].0,
                    best.view()[u].1 as int,
                    files@.len() as int,
                ),
            forall|u: int|
                0 <= u < t ==> #[trigger] out.view()[u].0 == best.view()[u].0 && out.view()[u].1@
                    == files@[best.view()[u].1 as int].path@,
        decreases best.view().len() - t,
    {
        let ghost old_out = out.view();
        let (k, idx) = best.entry(t);
        let p = files[*idx].path.clone();
        assert(!has_key(old_out, k@)) by {
            if has_key(old_out, k@) {
                let w = choose|w: int| 0 <= w < old_out.len() && #[trigger] old_out[w].0 == k@;
                assert(best.view()[w].0 == best.view()[t as int].0);
            }
        }
        out.insert(k.to_owned(), p);
        assert(out.view() == old_out.push((k@, p)));
        t += 1;
    }
    assert forall|tt: int| 0 <= tt < out.view().len() implies #[trigger] picked(files@, out.view()[tt]) by {
        let i = best.view()[tt].1 as int;
        assert(out.view()[tt].0 == best.view()[tt].0);
        assert(newest_for(files@, best.view()[tt].0, i, files@.len() as int));
        assert(newest_for(files@, out.view()[tt].0, i, files@.len() as int));
        assert(out.view()[tt].1@ == files@[i].path@);
    }
    assert forall|j: int| 0 <= j < files@.len() implies (#[trigger] file_key(files@[j]) matches Some(k) ==> has_key(
        out.view(),
        k,
    )) by {
        if let Some(k) = file_key(files@[j]) {
            let w = choose|w: int| 0 <= w < best.view().len() && #[trigger] best.view()[w].0 == k;
            assert(out.view()[w].0 == k);
        }
    }
    out
}

/// The name in one header line: `Listener: <name>`, after trimming and
/// dropping byte-order marks; only when the name is not blank.
pub open spec fn listener_of_line(p: Seq<char>) -> Option<Seq<char>> {
    let t = trim_start_bom(trim(p));
    let key = "Listener:"@;
    if starts_with(t, key) && trim(t.subrange(key.len() as int, t.len() as int)).len() > 0 {
        Some(trim(t.subrange(key.len() as int, t.len() as int)))
    } else {
        None
    }
}

/// The first listener name among header lines.
pub open spec fn first_listener(lines: Seq<Seq<char>>) -> Option<Seq<char>>
    decreases lines.len(),
{
    if lines.len() == 0 {
        None
    } else {
        match first_listener(lines.drop_last()) {
            Some(n) => Some(n),
            None => listener_of_line(lines.last()),
        }
    }
}

/// The text of a byte string with invalid UTF-8 sequences replaced by
/// U+FFFD, as `String::from_utf8_lossy` computes it.
pub uninterp spec fn utf8_lossy(b: Seq<u8>) -> Seq<char>;

/// `String::from_utf8_lossy`, owned: the text of `b`, each invalid UTF-8
/// sequence replaced by U+FFFD. Valid UTF-8 decodes unchanged, as its
/// documentation states.
#[verifier::external_body]
fn string_from_utf8_lossy(b: &[u8]) -> (s: String)
    ensures
        s@ == utf8_lossy(b@),
        valid_utf8(b@) ==> s@ == decode_utf8(b@),
{
    String::from_utf8_lossy(b).into_owned()
}

/// The header text of a log file: its first 8 KiB, UTF-16 LE for chatlogs
/// and UTF-8 for gamelogs.
pub open spec fn header_text(content: Seq<u8>, is_chatlog: bool) -> Seq<char> {
    let header = if content.len() > 8192 {
        content.subrange(0, 8192)
    } else {
        content
    };
    if is_chatlog {
        utf16_step(header).0
    } else {
        utf8_lossy(header)
    }
}

fn listener_in_line(p: &Vec<char>) -> (r: Option<String>)
    ensures
        opt_string(r) == listener_of_line(p@),
{
    let a = trim_vec(p);
    let t = trim_start_bom_vec(&a);
    match crate::parse::starts_with_str(&t, "Listener:") {
        Some(n) => {
            let rest = slice_of(&t, n, t.len());
            let name = trim_vec(&rest);
            if name.len() > 0 {
                Some(string_of(&name))
            } else {
                None
            }
        },
        None => None,
    }
}

/// An optional string as optional text.
pub open spec fn opt_string(o: Option<String>) -> Option<Seq<char>> {
    match o {
        Some(s) => Some(s@),
        None => None,
    }
}

/// Reads the `Listener: Name` header from the content of a log file.
/// Chatlogs are UTF-16 LE; gamelogs UTF-8. `None` when no line of the
/// first 8 KiB names a listener.
pub fn extract_listener(content: &[u8], is_chatlog: bool) -> (r: Option<String>)
    ensures
        opt_string(r) == first_listener(split_nl(header_text(content@, is_chatlog))),
{
    let mut header: Vec<u8> = Vec::new();
    let n: usize = if content.len() > 8192 {
        8192
    } else {
        content.len()
    };
    let mut i: usize = 0;
    while i < n
        invariant
            n <= content@.len(),
            i <= n,
            header@ == content@.subrange(0, i as int),
        decreases n - i,
    {
        header.push(content[i]);
        assert(content@.subrange(0, i + 1) == content@.subrange(0, i as int).push(
            content@[i as int],
        ));
        i += 1;
    }
    assert(content@.subrange(0, content@.len() as int) == content@);
    let text = if is_chatlog {
        decode_utf16_prefix(header.as_slice())
    } else {
        string_from_utf8_lossy(header.as_slice())
    };
    let t = chars_of(text.as_str());
    let mut cur: Vec<char> = Vec::new();
    let mut found: Option<String> = None;
    let mut j: usize = 0;
    while j < t.len()
        invariant
            j <= t@.len(),
            split_nl(t@.take(j as int)).len() >= 1,
            opt_string(found) == first_listener(split_nl(t@.take(j as int)).drop_last()),
            cur@ == split_nl(t@.take(j as int)).last(),
        decreases t@.len() - j,
    {
        let ghost pre = t@.take(j as int);
        assert(t@.take(j + 1).drop_last() == pre);
        proof {
            lemma_split_nl_len(pre);
        }
        if t[j] == '\n' {
            assert(split_nl(t@.take(j + 1)).drop_last() =~= split_nl(pre));
            assert(split_nl(pre).drop_last().push(cur@) =~= split_nl(pre));
            if found.is_none() {
                found = listener_in_line(&cur);
            }
            cur = Vec::new();
        } else {
            cur.push(t[j]);
            assert(split_nl(t@.take(j + 1)).drop_last() =~= split_nl(pre).drop_last());
        }
        j += 1;
    }
    assert(t@.take(t@.len() as int) == t@);
    let ghost p = split_nl(t@);
    assert(p.drop_last().push(p.last()) =~= p);
    if found.is_none() {
        found = listener_in_line(&cur);
    }
    found
}

/// A header line `Listener:`, optional whitespace, then a name that neither
/// starts nor ends with whitespace names exactly that listener, spaces
/// inside the name included.
pub proof fn law_listener_is_whole_name(w: Seq<char>, name: Seq<char>)
    requires
        forall|i: int| 0 <= i < w.len() ==> is_ws(#[trigger] w[i]),
        name.len() > 0,
        !is_ws(name[0]),
        !is_ws(name.last()),
    ensures
        listener_of_line("Listener:"@ + w + name) == Some(name),
{
    reveal_strlit("Listener:");
    let key = "Listener:"@;
    let p = key + w + name;
    assert(p[0] == 'L');
    assert(p.last() == name.last());
    lemma_trim_keeps(p);
    assert(p[0] != '\u{feff}');
    assert(trim_start_bom(p) == p);
    assert(p.subrange(0, key.len() as int) =~= key);
    let rest = p.subrange(key.len() as int, p.len() as int);
    assert(rest =~= w + name);
    lemma_trim_start_after_ws(w, name);
    lemma_trim_keeps(name);
    assert(trim(rest) == name);
}

} // verus!
