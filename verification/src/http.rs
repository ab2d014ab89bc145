//! The sliver of HTTP the editor needs: one GET that serves the embedded UI
//! assets, one upgrade to the websocket endpoint. A request head is parsed
//! just far enough to route it: the method and path, and the websocket key
//! when the request asks for an upgrade.

use vstd::prelude::*;
use vstd::string::StrSliceExecFns;
use vstd::string::StringExecFns;
use crate::text::same_text;

verus! {

/// The largest request head the server reads.
pub const MAX_HEAD: usize = 16384;

/// One request head, parsed just far enough to route it.
pub struct Request {
    pub method: String,
    pub path: String,
    pub websocket_key: Option<String>,
}

/// Whether a character has the Unicode `White_Space` property, the
/// whitespace `char::is_whitespace` answers for: the five controls from tab
/// to carriage return, space, next line, no-break space, ogham space mark,
/// the eleven spaces from en quad to hair space, the line and paragraph
/// separators, narrow no-break space, medium mathematical space and
/// ideographic space.
pub open spec fn white(c: char) -> bool {
    let v = c as u32;
    ||| 0x09 <= v <= 0x0D
    ||| v == 0x20
    ||| v == 0x85
    ||| v == 0xA0
    ||| v == 0x1680
    ||| 0x2000 <= v <= 0x200A
    ||| v == 0x2028
    ||| v == 0x2029
    ||| v == 0x202F
    ||| v == 0x205F
    ||| v == 0x3000
}

/// Whether a character is whitespace.
fn is_white(c: char) -> (w: bool)
    ensures
        w == white(c),
{
    let v = c as u32;
    (0x09 <= v && v <= 0x0D) || v == 0x20 || v == 0x85 || v == 0xA0 || v == 0x1680
        || (0x2000 <= v && v <= 0x200A) || v == 0x2028 || v == 0x2029 || v == 0x202F || v == 0x205F || v == 0x3000
}

/// The index of the first `\r\n` in `s` at or after `from`, or none.
pub open spec fn crlf_from(s: Seq<char>, from: int) -> Option<int>
    decreases s.len() - from,
{
    if from < 0 || from + 1 >= s.len() {
        None
    } else if s[from] == '\r' && s[from + 1] == '\n' {
        Some(from)
    } else {
        crlf_from(s, from + 1)
    }
}

/// The head split at each `\r\n`.
pub open spec fn head_lines(s: Seq<char>) -> Seq<Seq<char>>
    decreases s.len(),
{
    match crlf_from(s, 0) {
        Some(i) => {
            if 0 <= i && i + 2 <= s.len() {
                seq![s.subrange(0, i)] + head_lines(s.subrange(i + 2, s.len() as int))
            } else {
                seq![s]
            }
        },
        None => seq![s],
    }
}

/// The whitespace-separated words of a line.
pub open spec fn words(s: Seq<char>) -> Seq<Seq<char>>
    decreases s.len(),
{
    if s.len() == 0 {
        Seq::empty()
    } else if white(s[0]) {
        words(s.drop_first())
    } else {
        let w = word_length(s, 0);
        if 0 < w <= s.len() {
            seq![s.subrange(0, w)] + words(s.subrange(w, s.len() as int))
        } else {
            seq![s]
        }
    }
}

/// How many characters from `from` on are not whitespace, counted to the
/// first whitespace character or the end.
pub open spec fn word_length(s: Seq<char>, from: int) -> int
    decreases s.len() - from,
{
    if from < 0 || from >= s.len() || white(s[from]) {
        from
    } else {
        word_length(s, from + 1)
    }
}

/// The line with leading and trailing whitespace removed.
pub open spec fn trimmed(s: Seq<char>) -> Seq<char>
    decreases s.len(),
{
    if s.len() == 0 {
        s
    } else if white(s[0]) {
        trimmed(s.drop_first())
    } else if white(s.last()) {
        trimmed(s.drop_last())
    } else {
        s
    }
}

/// A character folded to ASCII lower case.
pub open spec fn ascii_lower(c: char) -> char {
    if 'A' <= c <= 'Z' { ((c as u32) + 32) as char } else { c }
}

/// Whether two texts are equal when ASCII case is ignored.
pub open spec fn same_ignoring_case(a: Seq<char>, b: Seq<char>) -> bool {
    a.len() == b.len() && forall|i: int| 0 <= i < a.len() ==> ascii_lower(#[trigger] a[i]) == ascii_lower(b[i])
}

/// The index of the first `:` of a line, or none.
pub open spec fn colon_at(s: Seq<char>, from: int) -> Option<int>
    decreases s.len() - from,
{
    if from < 0 || from >= s.len() {
        None
    } else if s[from] == ':' {
        Some(from)
    } else {
        colon_at(s, from + 1)
    }
}

/// The websocket key the header lines from `k` on name, beside the one
/// already found: each line must be empty or a `name: value` pair, and
/// the last pair named `sec-websocket-key` in any case gives the key.
pub open spec fn header_key(lines: Seq<Seq<char>>, k: int, found: Option<Seq<char>>) -> Option<Option<Seq<char>>>
    decreases lines.len() - k,
{
    if k < 0 || k >= lines.len() {
        Some(found)
    } else if lines[k].len() == 0 {
        header_key(lines, k + 1, found)
    } else {
        match colon_at(lines[k], 0) {
            Some(c) => if 0 <= c < lines[k].len() && same_ignoring_case(trimmed(lines[k].subrange(0, c)), "sec-websocket-key"@) {
                header_key(lines, k + 1, Some(trimmed(lines[k].subrange(c + 1, lines[k].len() as int))))
            } else {
                header_key(lines, k + 1, found)
            },
            None => None,
        }
    }
}

/// What a request head says: the method, the path, and the websocket key,
/// or none when the request line is malformed or a header line is.
/// The head's first line has a method, a path and a version naming HTTP.
pub open spec fn request_line_ok(head: Seq<char>) -> bool {
    let parts = words(head_lines(head)[0]);
    parts.len() >= 3 && parts[2].len() >= 5 && parts[2].subrange(0, 5) == "HTTP/"@
}

pub open spec fn request_of(head: Seq<char>) -> Option<(Seq<char>, Seq<char>, Option<Seq<char>>)> {
    let lines = head_lines(head);
    let parts = words(lines[0]);
    if parts.len() >= 3 && parts[2].len() >= 5 && parts[2].subrange(0, 5) == "HTTP/"@ {
        match header_key(lines, 1, None) {
            Some(key) => Some((parts[0], parts[1], key)),
            None => None,
        }
    } else {
        None
    }
}

proof fn lemma_head_lines_nonempty(s: Seq<char>)
    ensures
        head_lines(s).len() >= 1,
    decreases s.len(),
{
    match crlf_from(s, 0) {
        Some(i) => {
            if 0 <= i && i + 2 <= s.len() {
                lemma_head_lines_nonempty(s.subrange(i + 2, s.len() as int));
            }
        },
        None => {},
    }
}

/// The characters of a text, as a vector.
fn chars_of(text: &str) -> (chars: Vec<char>)
    ensures
        chars@ == text@,
{
    let length = text.unicode_len();
    let mut chars: Vec<char> = Vec::new();
    let mut i: usize = 0;
    while i < length
        invariant
            i <= length,
            length == text@.len(),
            chars@ == text@.subrange(0, i as int),
        decreases length - i,
    {
        chars.push(text.get_char(i));
        assert(chars@ =~= text@.subrange(0, i + 1));
        i = i + 1;
    }
    assert(text@.subrange(0, length as int) =~= text@);
    chars
}

fn text_of(chars: &Vec<char>, from: usize, to: usize) -> (text: String)
    requires
        from <= to <= chars@.len(),
    ensures
        text@ == chars@.subrange(from as int, to as int),
{
    let mut text = String::new();
    let mut i = from;
    while i < to
        invariant
            from <= i <= to,
            to <= chars@.len(),
            text@ == chars@.subrange(from as int, i as int),
        decreases to - i,
    {
        text.push(chars[i]);
        assert(text@ =~= chars@.subrange(from as int, i + 1));
        i = i + 1;
    }
    text
}

fn find_crlf(chars: &Vec<char>, from: usize) -> (found: Option<usize>)
    requires
        from <= chars@.len(),
    ensures
        match found {
            Some(i) => crlf_from(chars@, from as int) == Some(i as int) && from <= i && i + 2 <= chars@.len(),
            None => crlf_from(chars@, from as int) is None,
        },
    decreases chars@.len() - from,
{
    if from >= chars.len() || chars.len() - from < 2 {
        None
    } else if chars[from] == '\r' && chars[from + 1] == '\n' {
        Some(from)
    } else {
        find_crlf(chars, from + 1)
    }
}

/// The texts of a list of character lists.
pub open spec fn texts(lists: Seq<Vec<char>>) -> Seq<Seq<char>> {
    lists.map_values(|l: Vec<char>| l@)
}

/// A list of character lists with one more in front.
fn prepend(first: Vec<char>, rest: &Vec<Vec<char>>) -> (all: Vec<Vec<char>>)
    ensures
        texts(all@) == seq![first@] + texts(rest@),
{
    let ghost head = first@;
    let mut all: Vec<Vec<char>> = Vec::new();
    all.push(first);
    let mut t: usize = 0;
    while t < rest.len()
        invariant
            t <= rest@.len(),
            all@.len() == 1 + t,
            all@[0]@ == head,
            forall|m: int| 0 <= m < t ==> #[trigger] all@[1 + m]@ == rest@[m]@,
        decreases rest@.len() - t,
    {
        let mut copy: Vec<char> = Vec::new();
        let mut c: usize = 0;
        while c < rest[t].len()
            invariant
                t < rest@.len(),
                c <= rest@[t as int]@.len(),
                copy@ == rest@[t as int]@.subrange(0, c as int),
            decreases rest@[t as int]@.len() - c,
        {
            copy.push(rest[t][c]);
            assert(copy@ =~= rest@[t as int]@.subrange(0, c + 1));
            c = c + 1;
        }
        assert(rest@[t as int]@.subrange(0, rest@[t as int]@.len() as int) =~= rest@[t as int]@);
        let ghost before = all@;
        all.push(copy);
        assert forall|m: int| 0 <= m < t + 1 implies #[trigger] all@[1 + m]@ == rest@[m]@ by {
            if m < t {
                assert(all@[1 + m] == before[1 + m]);
            }
        }
        t = t + 1;
    }
    let ghost expected = seq![head] + texts(rest@);
    assert forall|m: int| 0 <= m < all@.len() implies #[trigger] texts(all@)[m] == expected[m] by {
        if m > 0 {
            assert(all@[1 + (m - 1)]@ == rest@[m - 1]@);
        }
    }
    assert(texts(all@) =~= expected);
    all
}

/// The head's lines.
fn lines_of(chars: &Vec<char>, from: usize) -> (lines: Vec<Vec<char>>)
    requires
        from <= chars@.len(),
    ensures
        texts(lines@) == head_lines(chars@.subrange(from as int, chars@.len() as int)),
    decreases chars@.len() - from,
{
    let ghost rest = chars@.subrange(from as int, chars@.len() as int);
    let total = chars.len();
    let mut lines: Vec<Vec<char>> = Vec::new();
    let found = find_crlf(chars, from);
    proof {
        lemma_crlf_shift(chars@, from as int, 0);
    }
    match found {
        Some(i) => {
            let mut line: Vec<char> = Vec::new();
            let mut j = from;
            while j < i
                invariant
                    from <= j <= i,
                    i + 2 <= chars@.len(),
                    line@ == chars@.subrange(from as int, j as int),
                decreases i - j,
            {
                line.push(chars[j]);
                assert(line@ =~= chars@.subrange(from as int, j + 1));
                j = j + 1;
            }
            let tail = lines_of(chars, i + 2);
            let lines = prepend(line, &tail);
            proof {
                assert(rest.subrange((i - from) as int + 2, rest.len() as int) =~= chars@.subrange(i + 2, chars@.len() as int));
                assert(rest.subrange(0, (i - from) as int) =~= chars@.subrange(from as int, i as int));
            }
            lines
        },
        None => {
            let mut line: Vec<char> = Vec::new();
            let mut j = from;
            while j < chars.len()
                invariant
                    from <= j <= chars@.len(),
                    line@ == chars@.subrange(from as int, j as int),
                decreases chars@.len() - j,
            {
                line.push(chars[j]);
                assert(line@ =~= chars@.subrange(from as int, j + 1));
                j = j + 1;
            }
            lines.push(line);
            assert(texts(lines@) =~= seq![rest]);
            lines
        },
    }
}

/// Looking for `\r\n` in a suffix is looking in the whole from its start.
proof fn lemma_crlf_shift(s: Seq<char>, from: int, k: int)
    requires
        0 <= from <= s.len(),
        0 <= k,
    ensures
        crlf_from(s.subrange(from, s.len() as int), k) == match crlf_from(s, from + k) {
            Some(i) => Some(i - from),
            None => None,
        },
    decreases s.len() - from - k,
{
    let t = s.subrange(from, s.len() as int);
    if from + k + 1 < s.len() {
        assert(t[k] == s[from + k]);
        assert(t[k + 1] == s[from + k + 1]);
        if !(s[from + k] == '\r' && s[from + k + 1] == '\n') {
            lemma_crlf_shift(s, from, k + 1);
        }
    }
}

fn words_of(line: &Vec<char>, from: usize) -> (parts: Vec<Vec<char>>)
    requires
        from <= line@.len(),
    ensures
        texts(parts@) == words(line@.subrange(from as int, line@.len() as int)),
    decreases line@.len() - from,
{
    let ghost rest = line@.subrange(from as int, line@.len() as int);
    if from >= line.len() {
        let parts: Vec<Vec<char>> = Vec::new();
        assert(texts(parts@) =~= Seq::<Seq<char>>::empty());
        return parts;
    }
    if is_white(line[from]) {
        assert(rest.drop_first() =~= line@.subrange(from + 1, line@.len() as int));
        return words_of(line, from + 1);
    }
    let mut end = from;
    let mut word: Vec<char> = Vec::new();
    while end < line.len() && !is_white(line[end])
        invariant
            from <= end <= line@.len(),
            word@ == line@.subrange(from as int, end as int),
            forall|j: int| from <= j < end ==> !white(line@[j]),
        decreases line@.len() - end,
    {
        word.push(line[end]);
        assert(word@ =~= line@.subrange(from as int, end + 1));
        end = end + 1;
    }
    proof {
        lemma_word_length(rest, 0, (end - from) as int);
        assert(rest.subrange(0, (end - from) as int) =~= word@);
        assert(rest.subrange((end - from) as int, rest.len() as int) =~= line@.subrange(end as int, line@.len() as int));
    }
    let tail = words_of(line, end);
    prepend(word, &tail)
}

proof fn lemma_word_length(s: Seq<char>, from: int, end: int)
    requires
        0 <= from <= end <= s.len(),
        forall|j: int| from <= j < end ==> !white(s[j]),
        end == s.len() || white(s[end]),
    ensures
        word_length(s, from) == end,
    decreases end - from,
{
    if from < end {
        lemma_word_length(s, from + 1, end);
    }
}

fn trim_of(chars: &Vec<char>, from: usize, to: usize) -> (text: String)
    requires
        from <= to <= chars@.len(),
    ensures
        text@ == trimmed(chars@.subrange(from as int, to as int)),
    decreases to - from,
{
    if from == to {
        assert(chars@.subrange(from as int, to as int).len() == 0);
        return String::new();
    }
    let ghost s = chars@.subrange(from as int, to as int);
    if is_white(chars[from]) {
        assert(s.drop_first() =~= chars@.subrange(from + 1, to as int));
        return trim_of(chars, from + 1, to);
    }
    if is_white(chars[to - 1]) {
        assert(s.drop_last() =~= chars@.subrange(from as int, to - 1));
        return trim_of(chars, from, to - 1);
    }
    text_of(chars, from, to)
}

fn lower(c: char) -> (l: char)
    ensures
        l == ascii_lower(c),
{
    if 'A' <= c && c <= 'Z' {
        ((c as u32 + 32) as u8) as char
    } else {
        c
    }
}

fn same_case_free(a: &str, b: &str) -> (same: bool)
    ensures
        same == same_ignoring_case(a@, b@),
{
    let length = a.unicode_len();
    if length != b.unicode_len() {
        return false;
    }
    let mut i: usize = 0;
    while i < length
        invariant
            i <= length,
            length == a@.len(),
            length == b@.len(),
            forall|j: int| 0 <= j < i ==> ascii_lower(#[trigger] a@[j]) == ascii_lower(b@[j]),
        decreases length - i,
    {
        if lower(a.get_char(i)) != lower(b.get_char(i)) {
            return false;
        }
        i = i + 1;
    }
    true
}

fn colon_of(chars: &Vec<char>, from: usize) -> (found: Option<usize>)
    requires
        from <= chars@.len(),
    ensures
        match found {
            Some(c) => colon_at(chars@, from as int) == Some(c as int) && c < chars@.len(),
            None => colon_at(chars@, from as int) is None,
        },
    decreases chars@.len() - from,
{
    if from >= chars.len() {
        None
    } else if chars[from] == ':' {
        Some(from)
    } else {
        colon_of(chars, from + 1)
    }
}

/// Parse one request head: the request line's method and path, its
/// version naming HTTP, and every header line a `name: value` pair, the
/// last `Sec-WebSocket-Key` of any case giving the websocket key.
pub fn parse_request(head: &str) -> (request: Result<Request, &'static str>)
    ensures
        match request {
            Ok(r) => request_of(head@) == Some((r.method@, r.path@, match r.websocket_key {
                Some(k) => Some(k@),
                None => None,
            })),
            Err(message) => request_of(head@) is None
                && message@ == if request_line_ok(head@) { "malformed header line"@ } else { "malformed request line"@ },
        },
{
    let chars = chars_of(head);
    let lines = lines_of(&chars, 0);
    let ghost views = texts(lines@);
    proof {
        assert(chars@.subrange(0, chars@.len() as int) =~= chars@);
        lemma_head_lines_nonempty(head@);
    }
    let parts = words_of(&lines[0], 0);
    proof {
        assert(lines@[0]@.subrange(0, lines@[0]@.len() as int) =~= lines@[0]@);
        assert(views[0] == lines@[0]@);
    }
    let ghost part_views = texts(parts@);
    if parts.len() < 3 {
        return Err("malformed request line");
    }
    let version = &parts[2];
    assert(part_views[2] == version@);
    let mut http = version.len() >= 5;
    if http {
        http = version[0] == 'H' && version[1] == 'T' && version[2] == 'T' && version[3] == 'P' && version[4] == '/';
        proof {
            reveal_strlit("HTTP/");
            if http {
                assert(version@.subrange(0, 5) =~= "HTTP/"@);
            } else if version@.subrange(0, 5) == "HTTP/"@ {
                assert(version@.subrange(0, 5)[0] == 'H');
                assert(version@.subrange(0, 5)[1] == 'T');
                assert(version@.subrange(0, 5)[2] == 'T');
                assert(version@.subrange(0, 5)[3] == 'P');
                assert(version@.subrange(0, 5)[4] == '/');
            }
        }
    }
    if !http {
        return Err("malformed request line");
    }
    let method = text_of(&parts[0], 0, parts[0].len());
    let path = text_of(&parts[1], 0, parts[1].len());
    proof {
        assert(parts@[0]@.subrange(0, parts@[0]@.len() as int) =~= parts@[0]@);
        assert(parts@[1]@.subrange(0, parts@[1]@.len() as int) =~= parts@[1]@);
        assert(part_views[0] == parts@[0]@ && part_views[1] == parts@[1]@);
    }
    let mut websocket_key: Option<String> = None;
    let mut k: usize = 1;
    while k < lines.len()
        invariant
            1 <= k <= lines@.len(),
            views == texts(lines@),
            views == head_lines(head@),
            part_views == words(views[0]),
            part_views.len() >= 3,
            part_views[2].len() >= 5 && part_views[2].subrange(0, 5) == "HTTP/"@,
            method@ == part_views[0],
            path@ == part_views[1],
            header_key(views, 1, None) == header_key(views, k as int, match websocket_key {
                Some(key) => Some(key@),
                None => None,
            }),
        decreases lines@.len() - k,
    {
        let line = &lines[k];
        assert(views[k as int] == line@);
        if line.len() > 0 {
            match colon_of(line, 0) {
                Some(c) => {
                    let name = trim_of(line, 0, c);
                    if same_case_free(name.as_str(), "sec-websocket-key") {
                        websocket_key = Some(trim_of(line, c + 1, line.len()));
                    }
                },
                None => {
                    return Err("malformed header line");
                },
            }
        }
        k = k + 1;
    }
    Ok(Request { method, path, websocket_key })
}

} // verus!
