//! Indexing a wiki dump: which pages it holds, read from the XML events of the
//! dump in document order.

use vstd::prelude::*;

verus! {

/// An XML event, as much of it as indexing reads.
pub enum XmlItem {
    /// An element opens; its local name.
    StartElement(String),
    /// Character data.
    Characters(String),
    /// Any other event.
    Other,
    /// The document ended, or could not be read further.
    End,
}

/// Where a scan from `pos` for an element named `name` stops: at the first such
/// start, at the end of the document, or past the last event.
pub open spec fn scan_until(events: Seq<XmlItem>, pos: int, name: Seq<char>) -> int
    decreases events.len() - pos,
{
    if pos < 0 || pos >= events.len() {
        events.len() as int
    } else {
        match events[pos] {
            XmlItem::StartElement(n) => if n@ == name {
                pos
            } else {
                scan_until(events, pos + 1, name)
            },
            XmlItem::End => pos,
            _ => scan_until(events, pos + 1, name),
        }
    }
}

/// The event at `i` opens an element named `name`.
pub open spec fn starts(events: Seq<XmlItem>, i: int, name: Seq<char>) -> bool {
    0 <= i < events.len() && (events[i] matches XmlItem::StartElement(n) && n@ == name)
}

/// The text of the next element named `name` from `pos`, and where reading
/// stopped: the text is the event right after the element's start, if that is
/// character data.
pub open spec fn element_text(events: Seq<XmlItem>, pos: int, name: Seq<char>) -> (
    Option<Seq<char>>,
    int,
) {
    let i = scan_until(events, pos, name);
    if starts(events, i, name) {
        if i + 1 < events.len() {
            match events[i + 1] {
                XmlItem::Characters(t) => (Some(t@), i + 2),
                _ => (None, i + 2),
            }
        } else {
            (None, i + 1)
        }
    } else {
        (None, i)
    }
}

/// A scan stops at the wanted element, at the end of the document, or past the
/// last event, never before `pos`.
pub proof fn lemma_scan_stops(events: Seq<XmlItem>, pos: int, name: Seq<char>)
    requires
        0 <= pos,
    ensures
        pos <= scan_until(events, pos, name) || scan_until(events, pos, name) == events.len(),
        scan_until(events, pos, name) <= events.len(),
        scan_until(events, pos, name) < events.len() ==> (starts(
            events,
            scan_until(events, pos, name),
            name,
        ) || events[scan_until(events, pos, name)] is End),
    decreases events.len() - pos,
{
    if pos < events.len() {
        lemma_scan_stops(events, pos + 1, name);
    }
}

fn scan_for(events: &Vec<XmlItem>, pos: usize, name: &str) -> (r: usize)
    ensures
        r == scan_until(events@, pos as int, name@),
{
    let wanted = String::from_str(name);
    let mut i: usize = pos;
    while i < events.len()
        invariant
            pos <= i,
            wanted@ == name@,
            scan_until(events@, i as int, name@) == scan_until(events@, pos as int, name@),
        decreases events@.len() - i,
    {
        match &events[i] {
            XmlItem::StartElement(n) => {
                if *n == wanted {
                    return i;
                }
            },
            XmlItem::End => {
                return i;
            },
            _ => {},
        }
        i = i + 1;
    }
    events.len()
}

/// The text of the next element named `name` from `pos`, and where reading stopped.
fn next_element_text(events: &Vec<XmlItem>, pos: usize, name: &str) -> (r: (Option<String>, usize))
    ensures
        (match r.0 {
            Some(t) => Some(t@),
            None => None,
        }, r.1 as int) == element_text(events@, pos as int, name@),
{
    let i = scan_for(events, pos, name);
    proof {
        lemma_scan_stops(events@, pos as int, name@);
    }
    if i < events.len() {
        match &events[i] {
            XmlItem::StartElement(_) => {
                if i + 1 < events.len() {
                    match &events[i + 1] {
                        XmlItem::Characters(t) => (Some(t.clone()), i + 2),
                        _ => (None, i + 2),
                    }
                } else {
                    (None, i + 1)
                }
            },
            _ => (None, i),
        }
    } else {
        (None, i)
    }
}

/// The index of the next `page` element from `pos`, if there is one.
pub fn skip_until_page_start(events: &Vec<XmlItem>, pos: usize) -> (r: Option<usize>)
    ensures
        match r {
            Some(i) => i == scan_until(events@, pos as int, "page"@) && starts(events@, i as int, "page"@),
            None => !starts(events@, scan_until(events@, pos as int, "page"@), "page"@),
        },
{
    let i = scan_for(events, pos, "page");
    proof {
        lemma_scan_stops(events@, pos as int, "page"@);
    }
    if i < events.len() {
        match &events[i] {
            XmlItem::StartElement(_) => Some(i),
            _ => None,
        }
    } else {
        None
    }
}

/// The next title from `pos`, and where reading stopped.
pub fn extract_next_title(events: &Vec<XmlItem>, pos: usize) -> (r: (Option<String>, usize))
    ensures
        (match r.0 {
            Some(t) => Some(t@),
            None => None,
        }, r.1 as int) == element_text(events@, pos as int, "title"@),
{
    next_element_text(events, pos, "title")
}

/// The next namespace from `pos`, and where reading stopped.
pub fn extract_next_namespace(events: &Vec<XmlItem>, pos: usize) -> (r: (Option<String>, usize))
    ensures
        (match r.0 {
            Some(t) => Some(t@),
            None => None,
        }, r.1 as int) == element_text(events@, pos as int, "ns"@),
{
    next_element_text(events, pos, "ns")
}

/// The pages to index from `pos`, in order: for each page, the index of the event
/// that opens it and its title, where its namespace, read after the title, is `0`.
pub open spec fn entries_from(events: Seq<XmlItem>, pos: int) -> Seq<(int, Seq<char>)>
    decreases events.len() - pos,
{
    if pos < 0 || pos >= events.len() {
        Seq::empty()
    } else {
        let p = scan_until(events, pos, "page"@);
        if !starts(events, p, "page"@) {
            Seq::empty()
        } else {
            let (title, after_title) = element_text(events, p + 1, "title"@);
            match title {
                None => if pos < after_title <= events.len() {
                    entries_from(events, after_title)
                } else {
                    Seq::empty()
                },
                Some(t) => {
                    let (ns, after_ns) = element_text(events, after_title, "ns"@);
                    let rest = if pos < after_ns <= events.len() {
                        entries_from(events, after_ns)
                    } else {
                        Seq::empty()
                    };
                    if ns == Some("0"@) {
                        seq![(p, t)] + rest
                    } else {
                        rest
                    }
                },
            }
        }
    }
}

/// Reading an element's text from `pos` never goes back before `pos`.
pub proof fn lemma_element_text_advances(events: Seq<XmlItem>, pos: int, name: Seq<char>)
    requires
        0 <= pos,
    ensures
        pos <= element_text(events, pos, name).1 || element_text(events, pos, name).1 == events.len(),
        element_text(events, pos, name).1 <= events.len(),
{
    lemma_scan_stops(events, pos, name);
}

/// The pages to index in the events of a dump, in document order: for each, the
/// index of the event that opens it and its title.
pub fn page_entries(events: &Vec<XmlItem>) -> (r: Vec<(usize, String)>)
    ensures
        r@.map_values(|e: (usize, String)| (e.0 as int, e.1@)) == entries_from(events@, 0),
{
    let ghost all = entries_from(events@, 0);
    let mut r: Vec<(usize, String)> = Vec::new();
    let mut pos: usize = 0;
    while pos < events.len()
        invariant
            r@.map_values(|e: (usize, String)| (e.0 as int, e.1@)) + entries_from(events@, pos as int) == all,
        decreases events@.len() - pos,
    {
        let ghost before = r@.map_values(|e: (usize, String)| (e.0 as int, e.1@));
        match skip_until_page_start(events, pos) {
            None => {
                pos = events.len();
            },
            Some(p) => {
                proof {
                    lemma_scan_stops(events@, pos as int, "page"@);
                    lemma_element_text_advances(events@, p + 1, "title"@);
                }
                let (title, after_title) = extract_next_title(events, p + 1);
                match title {
                    None => {
                        pos = after_title;
                    },
                    Some(t) => {
                        proof {
                            lemma_element_text_advances(events@, after_title as int, "ns"@);
                        }
                        let (ns, after_ns) = extract_next_namespace(events, after_title);
                        let zero = String::from_str("0");
                        let keep = match &ns {
                            Some(n) => *n == zero,
                            None => false,
                        };
                        if keep {
                            r.push((p, t));
                            assert(r@.map_values(|e: (usize, String)| (e.0 as int, e.1@)) =~= before
                                + seq![(p as int, r@.last().1@)]);
                        }
                        pos = after_ns;
                    },
                }
            },
        }
        assert(r@.map_values(|e: (usize, String)| (e.0 as int, e.1@)) + entries_from(events@, pos as int)
            =~= all);
    }
    assert(r@.map_values(|e: (usize, String)| (e.0 as int, e.1@)) =~= all);
    r
}

/// The pages to write to an index: all of them, or, when indexing resumes at
/// the page that the index ended with, all but that first one.
pub fn pages_to_index(events: &Vec<XmlItem>, resuming: bool) -> (r: Vec<(usize, String)>)
    ensures
        r@.map_values(|e: (usize, String)| (e.0 as int, e.1@)) == if resuming && entries_from(
            events@,
            0,
        ).len() > 0 {
            entries_from(events@, 0).drop_first()
        } else {
            entries_from(events@, 0)
        },
{
    let mut r = page_entries(events);
    if resuming && r.len() > 0 {
        let ghost before = r@;
        r.remove(0);
        assert(r@.map_values(|e: (usize, String)| (e.0 as int, e.1@)) =~= before.map_values(
            |e: (usize, String)| (e.0 as int, e.1@),
        ).drop_first());
    }
    r
}

/// Why the tail of an index does not say where indexing stopped.
#[derive(PartialEq, Eq, Structural, Clone, Copy, Debug)]
pub enum IndexTailError {
    /// The last line does not start with a position.
    NotANumber,
}

/// `s` split at each CR LF, as `str::split("\r\n")` splits it.
pub open spec fn split_crlf(s: Seq<char>) -> Seq<Seq<char>>
    decreases s.len(),
{
    if s.len() == 0 {
        seq![Seq::empty()]
    } else if s.len() >= 2 && s[s.len() - 2] == '\r' && s[s.len() - 1] == '\n' {
        split_crlf(s.take(s.len() - 2)).push(Seq::empty())
    } else {
        let p = split_crlf(s.drop_last());
        p.update(p.len() - 1, p.last().push(s.last()))
    }
}

/// The lines of `lines` that are not empty.
pub open spec fn non_empty(lines: Seq<Seq<char>>) -> Seq<Seq<char>>
    decreases lines.len(),
{
    if lines.len() == 0 {
        Seq::empty()
    } else if lines.last().len() > 0 {
        non_empty(lines.drop_last()).push(lines.last())
    } else {
        non_empty(lines.drop_last())
    }
}

/// What comes before the first comma of `line`.
pub open spec fn first_field(line: Seq<char>) -> Seq<char>
    decreases line.len(),
{
    if line.len() == 0 || line[0] == ',' {
        Seq::empty()
    } else {
        seq![line[0]] + first_field(line.drop_first())
    }
}

pub open spec fn is_digit(c: char) -> bool {
    '0' <= c <= '9'
}

/// The value of a run of decimal digits.
pub open spec fn digits_value(s: Seq<char>) -> nat
    decreases s.len(),
{
    if s.len() == 0 {
        0
    } else {
        digits_value(s.drop_last()) * 10 + (s.last() as nat - '0' as nat) as nat
    }
}

/// `s` without a leading `+`.
pub open spec fn unsigned_digits(s: Seq<char>) -> Seq<char> {
    if s.len() > 0 && s[0] == '+' {
        s.drop_first()
    } else {
        s
    }
}

/// The `u64` that `s` writes, as `str::parse` reads it: an optional `+`, then
/// one or more decimal digits, of a value that fits.
pub open spec fn u64_value(s: Seq<char>) -> Option<u64> {
    let d = unsigned_digits(s);
    if d.len() > 0 && (forall|i: int| 0 <= i < d.len() ==> is_digit(#[trigger] d[i]))
        && digits_value(d) <= u64::MAX {
        Some(digits_value(d) as u64)
    } else {
        None
    }
}

/// The last line of `tail` is whole: another line precedes it in the tail, or
/// `from_start` says the tail is the whole index (or there is no line).
pub open spec fn tail_has_full_line(tail: Seq<char>, from_start: bool) -> bool {
    non_empty(split_crlf(tail)).len() != 1 || from_start
}

/// Where indexing stopped, read from the last `tail` of an index whose lines
/// are `position,title`: no line means nothing was indexed yet, else the
/// position that starts the last line.
pub open spec fn resume_position(tail: Seq<char>) -> Result<u64, IndexTailError> {
    let lines = non_empty(split_crlf(tail));
    if lines.len() == 0 {
        Ok(0)
    } else {
        match u64_value(first_field(lines.last())) {
            Some(v) => Ok(v),
            None => Err(IndexTailError::NotANumber),
        }
    }
}

proof fn lemma_split_not_empty(s: Seq<char>)
    ensures
        split_crlf(s).len() >= 1,
    decreases s.len(),
{
    if s.len() > 0 {
        if s.len() >= 2 && s[s.len() - 2] == '\r' && s[s.len() - 1] == '\n' {
            lemma_split_not_empty(s.take(s.len() - 2));
        } else {
            lemma_split_not_empty(s.drop_last());
        }
    }
}

/// The lines of `tail` as (start, end) character positions, split at each CR LF.
fn split_lines(tail: &str) -> (r: Vec<(usize, usize)>)
    ensures
        r@.len() == split_crlf(tail@).len(),
        forall|k: int| 0 <= k < r@.len() ==> (#[trigger] r@[k]).0 <= r@[k].1 <= tail@.len()
            && tail@.subrange(r@[k].0 as int, r@[k].1 as int) == split_crlf(tail@)[k],
{
    let n = tail.unicode_len();
    let mut r: Vec<(usize, usize)> = Vec::new();
    r.push((0, 0));
    let mut i: usize = 0;
    while i < n
        invariant
            n == tail@.len(),
            i <= n,
            r@.len() == split_crlf(tail@.take(i as int)).len(),
            r@.len() >= 1,
            r@.last().1 == i,
            forall|k: int| 0 <= k < r@.len() ==> (#[trigger] r@[k]).0 <= r@[k].1 <= i
                && tail@.subrange(r@[k].0 as int, r@[k].1 as int) == split_crlf(tail@.take(i as int))[k],
        decreases n - i,
    {
        let ghost pre = tail@.take(i as int);
        let ghost cur = tail@.take(i as int + 1);
        assert(cur.drop_last() =~= pre);
        proof {
            lemma_split_not_empty(pre);
        }
        let c = tail.get_char(i);
        if c == '\n' && i >= 1 && tail.get_char(i - 1) == '\r' {
            let ghost before = r@;
            let last = r.len() - 1;
            let start = r[last].0;
            assert(cur.take(cur.len() - 2) =~= tail@.take(i as int - 1));
            let ghost pp = tail@.take(i as int - 1);
            proof {
                lemma_split_not_empty(pp);
                assert(pre.len() >= 1);
                if pre.len() >= 2 && pre[pre.len() - 2] == '\r' && pre[pre.len() - 1] == '\n' {
                    assert(false);
                }
                assert(pre.drop_last() =~= pp);
            }
            assert(start <= i - 1) by {
                if start == i {
                    assert(tail@.subrange(start as int, i as int).len() == 0);
                    assert(split_crlf(pre).last() == split_crlf(pp).last().push(pre.last()));
                }
            }
            r.set(last, (start, i - 1));
            r.push((i + 1, i + 1));
            assert forall|k: int| 0 <= k < r@.len() implies (#[trigger] r@[k]).0 <= r@[k].1 <= i + 1
                && tail@.subrange(r@[k].0 as int, r@[k].1 as int) == split_crlf(cur)[k] by {
                if k < last {
                    assert(r@[k] == before[k]);
                    assert(split_crlf(pre)[k] == split_crlf(pp)[k]);
                } else if k == last {
                    assert(split_crlf(pre)[k] == split_crlf(pp)[k].push(pre.last()));
                    assert(tail@.subrange(start as int, i as int) == tail@.subrange(start as int, i as int - 1).push(pre.last()));
                    assert(tail@.subrange(start as int, i as int - 1) =~= tail@.subrange(start as int, i as int).drop_last());
                    assert(split_crlf(pre)[k].drop_last() =~= split_crlf(pp)[k]);
                } else {
                    assert(tail@.subrange(i as int + 1, i as int + 1) =~= Seq::<char>::empty());
                }
            }
        } else {
            let ghost before = r@;
            let last = r.len() - 1;
            let start = r[last].0;
            r.set(last, (start, i + 1));
            proof {
                if cur.len() >= 2 && cur[cur.len() - 2] == '\r' && cur[cur.len() - 1] == '\n' {
                    assert(false);
                }
                assert(split_crlf(cur) == split_crlf(pre).update(
                    last as int,
                    split_crlf(pre).last().push(cur.last()),
                ));
            }
            assert forall|k: int| 0 <= k < r@.len() implies (#[trigger] r@[k]).0 <= r@[k].1 <= i + 1
                && tail@.subrange(r@[k].0 as int, r@[k].1 as int) == split_crlf(cur)[k] by {
                if k < last {
                    assert(r@[k] == before[k]);
                    assert(split_crlf(cur)[k] == split_crlf(pre)[k]);
                } else {
                    assert(before[k].0 <= before[k].1);
                    assert(tail@.subrange(before[k].0 as int, before[k].1 as int) == split_crlf(pre)[k]);
                    assert(tail@.subrange(start as int, i as int + 1) =~= tail@.subrange(start as int, i as int).push(cur.last()));
                    assert(split_crlf(cur)[k] == split_crlf(pre)[k].push(cur.last()));
                }
            }
        }
        i = i + 1;
    }
    assert(tail@.take(n as int) =~= tail@);
    r
}

proof fn lemma_digits_value_grows(s: Seq<char>, k: int)
    requires
        0 <= k <= s.len(),
    ensures
        digits_value(s.take(k)) <= digits_value(s),
    decreases s.len() - k,
{
    if k < s.len() {
        lemma_digits_value_grows(s.drop_last(), k);
        assert(s.drop_last().take(k) =~= s.take(k));
    } else {
        assert(s.take(k) =~= s);
    }
}

/// The `u64` that the characters `from..to` of `s` write, as `str::parse` reads it.
fn parse_u64(s: &str, from: usize, to: usize) -> (r: Option<u64>)
    requires
        from <= to <= s@.len(),
    ensures
        r == u64_value(s@.subrange(from as int, to as int)),
{
    let ghost t = s@.subrange(from as int, to as int);
    let mut d0 = from;
    if from < to && s.get_char(from) == '+' {
        d0 = from + 1;
    }
    let ghost d = s@.subrange(d0 as int, to as int);
    assert(d =~= unsigned_digits(t));
    if d0 == to {
        return None;
    }
    let mut v: u64 = 0;
    let mut j: usize = d0;
    while j < to
        invariant
            d0 <= j <= to <= s@.len(),
            d == s@.subrange(d0 as int, to as int),
            t == s@.subrange(from as int, to as int),
            d == unsigned_digits(t),
            forall|i: int| 0 <= i < j - d0 ==> is_digit(#[trigger] d[i]),
            v as nat == digits_value(d.take(j - d0)),
        decreases to - j,
    {
        let c = s.get_char(j);
        assert(d[j - d0] == c);
        if !('0' <= c && c <= '9') {
            assert(!is_digit(d[j - d0]));
            return None;
        }
        let digit = (c as u32 - '0' as u32) as u64;
        assert(d.take(j - d0 + 1).drop_last() =~= d.take(j - d0));
        assert(d.take(j - d0 + 1).last() == c);
        assert(digit as nat == (c as nat - '0' as nat) as nat);
        assert(digits_value(d.take(j - d0 + 1)) == digits_value(d.take(j - d0)) * 10 + digit);
        if v > (u64::MAX - digit) / 10 {
            proof {
                lemma_digits_value_grows(d, j - d0 + 1);
                assert(digits_value(d.take(j - d0 + 1)) > u64::MAX) by (nonlinear_arith)
                    requires
                        v > (u64::MAX - digit) / 10,
                        digits_value(d.take(j - d0 + 1)) == v * 10 + digit,
                ;
            }
            return None;
        }
        v = v * 10 + digit;
        j = j + 1;
    }
    assert(d.take(d.len() as int) =~= d);
    Some(v)
}

/// How many lines of `tail` are not empty, and where the last of them lies.
fn last_line(tail: &str) -> (r: (usize, (usize, usize)))
    ensures
        r.0 as int == non_empty(split_crlf(tail@)).len(),
        r.0 > 0 ==> r.1.0 <= r.1.1 <= tail@.len() && tail@.subrange(r.1.0 as int, r.1.1 as int)
            == non_empty(split_crlf(tail@)).last(),
{
    let segs = split_lines(tail);
    let ghost lines = split_crlf(tail@);
    let mut count: usize = 0;
    let mut last: (usize, usize) = (0, 0);
    let mut k: usize = 0;
    while k < segs.len()
        invariant
            k <= segs@.len(),
            lines == split_crlf(tail@),
            segs@.len() == lines.len(),
            forall|m: int| 0 <= m < segs@.len() ==> (#[trigger] segs@[m]).0 <= segs@[m].1 <= tail@.len()
                && tail@.subrange(segs@[m].0 as int, segs@[m].1 as int) == lines[m],
            count as int == non_empty(lines.take(k as int)).len(),
            count <= k,
            count > 0 ==> last.0 <= last.1 <= tail@.len() && tail@.subrange(last.0 as int, last.1 as int)
                == non_empty(lines.take(k as int)).last(),
        decreases segs@.len() - k,
    {
        assert(lines.take(k as int + 1).drop_last() =~= lines.take(k as int));
        assert(segs@[k as int].0 <= segs@[k as int].1);
        if segs[k].0 < segs[k].1 {
            count = count + 1;
            last = segs[k];
        }
        k = k + 1;
    }
    assert(lines.take(segs@.len() as int) =~= lines);
    (count, last)
}

/// Whether the last line of `tail` is whole; `from_start` says the tail is the
/// whole index.
pub fn has_full_line(tail: &str, from_start: bool) -> (r: bool)
    ensures
        r == tail_has_full_line(tail@, from_start),
{
    let (count, _) = last_line(tail);
    count != 1 || from_start
}

/// Where indexing stopped, read from the last `tail` of an index whose last
/// line is whole.
pub fn last_index_position(tail: &str, from_start: bool) -> (r: Result<u64, IndexTailError>)
    requires
        tail_has_full_line(tail@, from_start),
    ensures
        r == resume_position(tail@),
{
    let (count, last) = last_line(tail);
    if count == 0 {
        return Ok(0);
    }
    let ghost line = tail@.subrange(last.0 as int, last.1 as int);
    let mut e: usize = last.0;
    while e < last.1 && tail.get_char(e) != ','
        invariant
            last.0 <= e <= last.1 <= tail@.len(),
            line == tail@.subrange(last.0 as int, last.1 as int),
            first_field(line) == tail@.subrange(last.0 as int, e as int) + first_field(
                tail@.subrange(e as int, last.1 as int),
            ),
        decreases last.1 - e,
    {
        let ghost rest = tail@.subrange(e as int, last.1 as int);
        assert(rest.drop_first() =~= tail@.subrange(e as int + 1, last.1 as int));
        assert(tail@.subrange(last.0 as int, e as int + 1) =~= tail@.subrange(last.0 as int, e as int)
            + seq![rest[0]]);
        e = e + 1;
    }
    assert(first_field(tail@.subrange(e as int, last.1 as int)) =~= Seq::<char>::empty());
    assert(first_field(line) =~= tail@.subrange(last.0 as int, e as int));
    match parse_u64(tail, last.0, e) {
        Some(v) => Ok(v),
        None => Err(IndexTailError::NotANumber),
    }
}

} // verus!
