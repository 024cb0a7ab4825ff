//! The textual header in front of the raw words, and the format it names.
use crate::error::RawFileReaderError;
use vstd::prelude::*;

verus! {

#[derive(Debug, Clone, Copy, PartialEq, Eq, Structural)]
pub enum Endianness {
    Big,
    Little,
}

/// The event formats that a header can name.
#[derive(Debug, Clone, Copy, PartialEq, Eq, Structural)]
pub enum RawEventType {
    Evt2,
    Evt21,
    Evt3,
    Evt4,
}

#[derive(Debug, Clone, Copy, PartialEq, Eq, Structural)]
pub struct CameraGeometry {
    pub width: u32,
    pub height: u32,
}

/// The characters that `char::is_whitespace` accepts (Unicode `White_Space`).
pub open spec fn is_whitespace(c: char) -> bool {
    let u = c as u32;
    ||| 0x09 <= u <= 0x0D
    ||| u == 0x20
    ||| u == 0x85
    ||| u == 0xA0
    ||| u == 0x1680
    ||| 0x2000 <= u <= 0x200A
    ||| u == 0x2028
    ||| u == 0x2029
    ||| u == 0x202F
    ||| u == 0x205F
    ||| u == 0x3000
}

fn is_whitespace_char(c: char) -> (r: bool)
    ensures
        r == is_whitespace(c),
{
    let u = c as u32;
    (0x09 <= u && u <= 0x0D) || u == 0x20 || u == 0x85 || u == 0xA0 || u == 0x1680 || (0x2000
        <= u && u <= 0x200A) || u == 0x2028 || u == 0x2029 || u == 0x202F || u == 0x205F || u
        == 0x3000
}

/// `s` without its leading `'%'` characters.
pub open spec fn strip_percents(s: Seq<char>) -> Seq<char>
    decreases s.len(),
{
    if s.len() > 0 && s[0] == '%' {
        strip_percents(s.drop_first())
    } else {
        s
    }
}

/// `s` without its leading whitespace.
pub open spec fn trim_start(s: Seq<char>) -> Seq<char>
    decreases s.len(),
{
    if s.len() > 0 && is_whitespace(s[0]) {
        trim_start(s.drop_first())
    } else {
        s
    }
}

/// `s` without its trailing whitespace.
pub open spec fn trim_end(s: Seq<char>) -> Seq<char>
    decreases s.len(),
{
    if s.len() > 0 && is_whitespace(s.last()) {
        trim_end(s.drop_last())
    } else {
        s
    }
}

/// A header line without its leading `'%'` marks and surrounding whitespace.
pub open spec fn trimmed_line(line: Seq<char>) -> Seq<char> {
    trim_end(trim_start(strip_percents(line)))
}

/// The index of the first `c` in `s`, or `s.len()` when there is none.
pub open spec fn find_char(s: Seq<char>, c: char) -> nat
    decreases s.len(),
{
    if s.len() == 0 || s[0] == c {
        0
    } else {
        1 + find_char(s.drop_first(), c)
    }
}

/// The key of a trimmed header line: what precedes its first space.
pub open spec fn line_key(t: Seq<char>) -> Seq<char> {
    t.take(find_char(t, ' ') as int)
}

/// The value of a trimmed header line: what follows its first space, if it has one.
pub open spec fn line_value(t: Seq<char>) -> Option<Seq<char>> {
    if find_char(t, ' ') < t.len() {
        Some(t.skip(find_char(t, ' ') + 1int))
    } else {
        None
    }
}

proof fn lemma_strip_percents_at(s: Seq<char>, i: int)
    requires
        0 <= i <= s.len(),
        forall|k: int| 0 <= k < i ==> s[k] == '%',
        i == s.len() || s[i] != '%',
    ensures
        strip_percents(s) == s.skip(i),
    decreases i,
{
    if i > 0 {
        lemma_strip_percents_at(s.drop_first(), i - 1);
        assert(s.drop_first().skip(i - 1) =~= s.skip(i));
    } else {
        assert(s.skip(0) =~= s);
    }
}

proof fn lemma_trim_start_at(s: Seq<char>, i: int)
    requires
        0 <= i <= s.len(),
        forall|k: int| 0 <= k < i ==> is_whitespace(#[trigger] s[k]),
        i == s.len() || !is_whitespace(s[i]),
    ensures
        trim_start(s) == s.skip(i),
    decreases i,
{
    if i > 0 {
        assert(is_whitespace(s[0]));
        lemma_trim_start_at(s.drop_first(), i - 1);
        assert(s.drop_first().skip(i - 1) =~= s.skip(i));
    } else {
        assert(s.skip(0) =~= s);
    }
}

proof fn lemma_trim_end_at(s: Seq<char>, e: int)
    requires
        0 <= e <= s.len(),
        forall|k: int| e <= k < s.len() ==> is_whitespace(#[trigger] s[k]),
        e == 0 || !is_whitespace(s[e - 1]),
    ensures
        trim_end(s) == s.take(e),
    decreases s.len() - e,
{
    if e < s.len() {
        assert(is_whitespace(s.last()));
        lemma_trim_end_at(s.drop_last(), e);
        assert(s.drop_last().take(e) =~= s.take(e));
    } else {
        assert(s.take(e) =~= s);
    }
}

proof fn lemma_find_char_at(s: Seq<char>, c: char, i: int)
    requires
        0 <= i <= s.len(),
        forall|k: int| 0 <= k < i ==> s[k] != c,
        i == s.len() || s[i] == c,
    ensures
        find_char(s, c) == i,
    decreases i,
{
    if i > 0 {
        lemma_find_char_at(s.drop_first(), c, i - 1);
    }
}

/// The characters of `v` from `a` up to `b`.
fn copy_range(v: &Vec<char>, a: usize, b: usize) -> (r: Vec<char>)
    requires
        a <= b <= v@.len(),
    ensures
        r@ == v@.subrange(a as int, b as int),
{
    let mut r: Vec<char> = Vec::new();
    let mut i: usize = a;
    while i < b
        invariant
            a <= i <= b <= v@.len(),
            r@ =~= v@.subrange(a as int, i as int),
        decreases b - i,
    {
        r.push(v[i]);
        i = i + 1;
    }
    r
}

/// The index of the first `c` in `v` from `a` on, below `b`; `b` when there is none.
fn find_from(v: &Vec<char>, c: char, a: usize, b: usize) -> (r: usize)
    requires
        a <= b <= v@.len(),
    ensures
        a <= r <= b,
        r == a + find_char(v@.subrange(a as int, b as int), c),
{
    let mut i: usize = a;
    while i < b && v[i] != c
        invariant
            a <= i <= b <= v@.len(),
            forall|k: int| a <= k < i ==> v@[k] != c,
        decreases b - i,
    {
        i = i + 1;
    }
    proof {
        lemma_find_char_at(v@.subrange(a as int, b as int), c, i - a);
    }
    i
}

/// Splits a header line into its key and, when it has one, its value.
fn split_line(line: &Vec<char>) -> (r: (Vec<char>, Option<Vec<char>>))
    ensures
        r.0@ == line_key(trimmed_line(line@)),
        match r.1 {
            Some(v) => line_value(trimmed_line(line@)) == Some(v@),
            None => line_value(trimmed_line(line@)) is None,
        },
{
    let n = line.len();
    let mut i: usize = 0;
    while i < n && line[i] == '%'
        invariant
            i <= n == line@.len(),
            forall|k: int| 0 <= k < i ==> line@[k] == '%',
        decreases n - i,
    {
        i = i + 1;
    }
    let mut j: usize = i;
    while j < n && is_whitespace_char(line[j])
        invariant
            i <= j <= n == line@.len(),
            forall|k: int| i <= k < j ==> is_whitespace(#[trigger] line@[k]),
        decreases n - j,
    {
        j = j + 1;
    }
    let mut e: usize = n;
    while e > j && is_whitespace_char(line[e - 1])
        invariant
            j <= e <= n == line@.len(),
            forall|k: int| e <= k < n ==> is_whitespace(#[trigger] line@[k]),
        decreases e,
    {
        e = e - 1;
    }
    let ghost s0 = line@.skip(i as int);
    let ghost s1 = line@.skip(j as int);
    proof {
        lemma_strip_percents_at(line@, i as int);
        assert forall|k: int| 0 <= k < j - i implies is_whitespace(#[trigger] s0[k]) by {
            assert(s0[k] == line@[i + k]);
        }
        lemma_trim_start_at(s0, j - i);
        assert(s0.skip(j - i) =~= s1);
        assert forall|k: int| e - j <= k < s1.len() implies is_whitespace(#[trigger] s1[k]) by {
            assert(s1[k] == line@[j + k]);
        }
        lemma_trim_end_at(s1, e - j);
        assert(s1.take(e - j) =~= line@.subrange(j as int, e as int));
    }
    let sp = find_from(line, ' ', j, e);
    let key = copy_range(line, j, sp);
    let t = Ghost(line@.subrange(j as int, e as int));
    proof {
        assert(t@.take(sp - j) =~= key@);
    }
    if sp < e {
        let value = copy_range(line, sp + 1, e);
        proof {
            assert(t@.skip(sp - j + 1) =~= value@);
        }
        (key, Some(value))
    } else {
        (key, None)
    }
}

/// The parsed header: every key/value line, and the format it names.
#[derive(Debug)]
pub struct RawFileHeader {
    /// The key/value pairs in order of first appearance; a repeated key keeps
    /// its last value.
    pub header_dict: Vec<(String, String)>,
    pub event_type: RawEventType,
    pub camera_geometry: CameraGeometry,
}

/// The key/value pairs of a header dictionary, as character sequences.
pub open spec fn dict_view(d: Seq<(String, String)>) -> Seq<(Seq<char>, Seq<char>)> {
    Seq::new(d.len(), |i: int| (d[i].0@, d[i].1@))
}

/// No key occurs twice.
pub open spec fn keys_unique(d: Seq<(Seq<char>, Seq<char>)>) -> bool {
    forall|i: int, j: int| 0 <= i < j < d.len() ==> (#[trigger] d[i]).0 != (#[trigger] d[j]).0
}

/// `d` with `k` set to `v`: in place when `k` is present, else appended.
pub open spec fn dict_insert(d: Seq<(Seq<char>, Seq<char>)>, k: Seq<char>, v: Seq<char>) -> Seq<
    (Seq<char>, Seq<char>),
> {
    if exists|i: int| 0 <= i < d.len() && (#[trigger] d[i]).0 == k {
        d.update(choose|i: int| 0 <= i < d.len() && (#[trigger] d[i]).0 == k, (k, v))
    } else {
        d.push((k, v))
    }
}

pub open spec fn evt_key() -> Seq<char> {
    seq!['e', 'v', 't']
}

pub open spec fn format_key() -> Seq<char> {
    seq!['f', 'o', 'r', 'm', 'a', 't']
}

/// What a run of header lines holds: the last `evt` value, the last `format`
/// value, and the dictionary of all key/value lines.
pub open spec fn scan_lines(lines: Seq<Seq<char>>) -> (
    Option<Seq<char>>,
    Option<Seq<char>>,
    Seq<(Seq<char>, Seq<char>)>,
)
    decreases lines.len(),
{
    if lines.len() == 0 {
        (None, None, seq![])
    } else {
        let (evt, format, dict) = scan_lines(lines.drop_last());
        let t = trimmed_line(lines.last());
        let k = line_key(t);
        match line_value(t) {
            Some(v) => (
                if k == evt_key() {
                    Some(v)
                } else {
                    evt
                },
                if k == format_key() {
                    Some(v)
                } else {
                    format
                },
                dict_insert(dict, k, v),
            ),
            None => (evt, format, dict),
        }
    }
}

/// The format tag: the `format` value when there is one, else the `evt`
/// value, cut at its first `';'`.
pub open spec fn format_tag(lines: Seq<Seq<char>>) -> Option<Seq<char>> {
    let (evt, format, _) = scan_lines(lines);
    let tag = if format is Some {
        format
    } else {
        evt
    };
    match tag {
        Some(t) => Some(t.take(find_char(t, ';') as int)),
        None => None,
    }
}

/// The format that a tag names.
pub open spec fn tag_event_type(t: Seq<char>) -> Option<RawEventType> {
    if t == seq!['2', '.', '0'] || t == seq!['E', 'V', 'T', '2'] {
        Some(RawEventType::Evt2)
    } else if t == seq!['2', '.', '1'] || t == seq!['E', 'V', 'T', '2', '1'] {
        Some(RawEventType::Evt21)
    } else if t == seq!['3', '.', '0'] || t == seq!['E', 'V', 'T', '3'] {
        Some(RawEventType::Evt3)
    } else if t == seq!['4', '.', '0'] || t == seq!['E', 'V', 'T', '4'] {
        Some(RawEventType::Evt4)
    } else {
        None
    }
}

/// The characters of the header lines.
pub open spec fn line_views(lines: Seq<String>) -> Seq<Seq<char>> {
    Seq::new(lines.len(), |i: int| lines[i]@)
}

/// Relies on `String`'s `FromIterator<&char>`: the string holds exactly the
/// given characters, in order.
#[verifier::external_body]
fn string_of(cs: &[char]) -> (r: String)
    ensures
        r@ == cs@,
{
    String::from_iter(cs.iter())
}

fn chars_of(s: &str) -> (r: Vec<char>)
    ensures
        r@ == s@,
{
    let mut r: Vec<char> = Vec::new();
    for c in it: s.chars()
        invariant
            r@ == it.seq().take(it.index() as int),
    {
        r.push(c);
    }
    r
}

fn same_chars(a: &[char], b: &[char]) -> (r: bool)
    ensures
        r == (a@ == b@),
{
    if a.len() != b.len() {
        return false;
    }
    let mut i: usize = 0;
    while i < a.len()
        invariant
            i <= a@.len() == b@.len(),
            forall|k: int| 0 <= k < i ==> a@[k] == b@[k],
        decreases a@.len() - i,
    {
        if a[i] != b[i] {
            return false;
        }
        i = i + 1;
    }
    proof {
        assert(a@ =~= b@);
    }
    true
}

/// Sets `key` to `value` in `dict`, in place when the key is present.
fn insert_entry(dict: &mut Vec<(String, String)>, key: String, value: String)
    requires
        keys_unique(dict_view(old(dict)@)),
    ensures
        keys_unique(dict_view(final(dict)@)),
        dict_view(final(dict)@) == dict_insert(dict_view(old(dict)@), key@, value@),
{
    let ghost d0 = dict_view(dict@);
    let ghost k = key@;
    let ghost v = value@;
    let mut i: usize = 0;
    let mut found = false;
    while !found && i < dict.len()
        invariant
            i <= dict@.len(),
            dict_view(dict@) == d0,
            keys_unique(d0),
            k == key@,
            found ==> i < dict@.len() && d0[i as int].0 == k,
            forall|j: int| 0 <= j < i ==> (#[trigger] d0[j]).0 != k,
        decreases dict@.len() - i + if found {
            0int
        } else {
            1int
        },
    {
        let same = dict[i].0 == key;
        proof {
            assert(d0[i as int] == (dict@[i as int].0@, dict@[i as int].1@));
        }
        if same {
            found = true;
        } else {
            i = i + 1;
        }
    }
    if found {
        proof {
            assert(d0[i as int].0 == k);
            let c = choose|c: int| 0 <= c < d0.len() && (#[trigger] d0[c]).0 == k;
            assert(c == i);
        }
        dict.set(i, (key, value));
        proof {
            assert(dict_view(dict@) =~= d0.update(i as int, (k, v)));
        }
    } else {
        dict.push((key, value));
        proof {
            assert(dict_view(dict@) =~= d0.push((k, v)));
        }
    }
}

pub open spec fn opt_view(o: Option<Vec<char>>) -> Option<Seq<char>> {
    match o {
        Some(v) => Some(v@),
        None => None,
    }
}

/// The format that a format tag names, or `UnknownEventType` with the tag.
fn event_type_of(tag: &Vec<char>) -> (r: Result<RawEventType, RawFileReaderError>)
    ensures
        match tag_event_type(tag@) {
            Some(f) => r == Ok::<RawEventType, RawFileReaderError>(f),
            None => r matches Err(RawFileReaderError::UnknownEventType(s)) && s@ == tag@,
        },
{
    let t = tag.as_slice();
    if same_chars(t, &['2', '.', '0']) || same_chars(t, &['E', 'V', 'T', '2']) {
        Ok(RawEventType::Evt2)
    } else if same_chars(t, &['2', '.', '1']) || same_chars(t, &['E', 'V', 'T', '2', '1']) {
        Ok(RawEventType::Evt21)
    } else if same_chars(t, &['3', '.', '0']) || same_chars(t, &['E', 'V', 'T', '3']) {
        Ok(RawEventType::Evt3)
    } else if same_chars(t, &['4', '.', '0']) || same_chars(t, &['E', 'V', 'T', '4']) {
        Ok(RawEventType::Evt4)
    } else {
        Err(RawFileReaderError::UnknownEventType(string_of(t)))
    }
}

/// Parses the header lines (each with its leading `'%'`). Each line is
/// stripped of its `'%'` marks and surrounding whitespace and split at its
/// first space into a key and a value; a line without a space holds no
/// entry. The format is the last `format` value, else the last `evt` value,
/// cut at its first `';'`.
pub fn parse_header(lines: &Vec<String>) -> (r: Result<RawFileHeader, RawFileReaderError>)
    ensures
        ({
            let views = line_views(lines@);
            match format_tag(views) {
                None => r matches Err(RawFileReaderError::EventTypeNotFound),
                Some(t) => match tag_event_type(t) {
                    Some(f) => r matches Ok(h) && h.event_type == f && dict_view(h.header_dict@)
                        == scan_lines(views).2 && h.camera_geometry == (CameraGeometry {
                        width: 0,
                        height: 0,
                    }),
                    None => r matches Err(RawFileReaderError::UnknownEventType(s)) && s@ == t,
                },
            }
        }),
{
    let ghost views = line_views(lines@);
    let mut evt: Option<Vec<char>> = None;
    let mut format: Option<Vec<char>> = None;
    let mut header_dict: Vec<(String, String)> = Vec::new();
    let mut i: usize = 0;
    while i < lines.len()
        invariant
            i <= lines@.len(),
            views == line_views(lines@),
            keys_unique(dict_view(header_dict@)),
            scan_lines(views.take(i as int)) == (opt_view(evt), opt_view(format), dict_view(
                header_dict@,
            )),
        decreases lines@.len() - i,
    {
        let cs = chars_of(lines[i].as_str());
        let (key, value) = split_line(&cs);
        proof {
            assert(views.take(i as int + 1).drop_last() =~= views.take(i as int));
            assert(views.take(i as int + 1).last() == cs@);
        }
        if let Some(v) = value {
            if same_chars(key.as_slice(), &['e', 'v', 't']) {
                evt = Some(copy_range(&v, 0, v.len()));
            }
            if same_chars(key.as_slice(), &['f', 'o', 'r', 'm', 'a', 't']) {
                format = Some(copy_range(&v, 0, v.len()));
            }
            proof {
                assert(v@.subrange(0, v@.len() as int) =~= v@);
            }
            insert_entry(&mut header_dict, string_of(key.as_slice()), string_of(v.as_slice()));
        }
        i = i + 1;
    }
    proof {
        assert(views.take(i as int) =~= views);
    }
    let tag = match format {
        Some(f) => f,
        None => match evt {
            Some(e) => e,
            None => {
                return Err(RawFileReaderError::EventTypeNotFound);
            },
        },
    };
    proof {
        assert(tag@.subrange(0, tag@.len() as int) =~= tag@);
    }
    let cut = find_from(&tag, ';', 0, tag.len());
    let head = copy_range(&tag, 0, cut);
    proof {
        assert(head@ =~= tag@.take(find_char(tag@, ';') as int));
    }
    match event_type_of(&head) {
        Ok(event_type) => Ok(
            RawFileHeader {
                header_dict,
                event_type,
                camera_geometry: CameraGeometry { width: 0, height: 0 },
            },
        ),
        Err(e) => Err(e),
    }
}

} // verus!
