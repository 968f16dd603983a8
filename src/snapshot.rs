use vstd::prelude::*;
use vstd::string::*;

verus! {

/// One session as reported by the multiplexer.
pub struct SessionRecord {
    pub activity: u64,
    pub name: String,
    pub attached: bool,
    pub description: String,
}

/// The mathematical value of a session record.
pub struct RecordView {
    pub activity: u64,
    pub name: Seq<char>,
    pub attached: bool,
    pub description: Seq<char>,
}

impl View for SessionRecord {
    type V = RecordView;

    open spec fn view(&self) -> RecordView {
        RecordView {
            activity: self.activity,
            name: self.name@,
            attached: self.attached,
            description: self.description@,
        }
    }
}

/// The values of a list of records.
pub open spec fn records_view(v: Seq<SessionRecord>) -> Seq<RecordView> {
    v.map_values(|r: SessionRecord| r@)
}

/// Index of the first occurrence of `c` in `s`, or -1 when there is none.
pub open spec fn index_of(s: Seq<char>, c: char) -> int
    decreases s.len(),
{
    if s.len() == 0 {
        -1
    } else if s[0] == c {
        0
    } else {
        let r = index_of(s.drop_first(), c);
        if r < 0 {
            -1
        } else {
            r + 1
        }
    }
}

/// `s` cut at every `sep`; always at least one piece.
pub open spec fn split_on(s: Seq<char>, sep: char) -> Seq<Seq<char>>
    decreases s.len(),
{
    if s.len() == 0 {
        seq![Seq::<char>::empty()]
    } else {
        let p = split_on(s.drop_last(), sep);
        if s.last() == sep {
            p.push(Seq::<char>::empty())
        } else {
            p.update(p.len() - 1, p.last().push(s.last()))
        }
    }
}

pub open spec fn strip_cr(l: Seq<char>) -> Seq<char> {
    if l.len() > 0 && l.last() == '\r' {
        l.drop_last()
    } else {
        l
    }
}

/// The lines of a text: pieces ended by `\n` (with a `\r` before it removed),
/// then the unterminated rest, when it is not empty.
pub open spec fn lines(s: Seq<char>) -> Seq<Seq<char>> {
    let p = split_on(s, '\n');
    let body = p.drop_last().map_values(|l: Seq<char>| strip_cr(l));
    if p.last().len() == 0 {
        body
    } else {
        body.push(p.last())
    }
}

pub open spec fn is_digit(c: char) -> bool {
    '0' <= c && c <= '9'
}

pub open spec fn digits_value(s: Seq<char>) -> nat
    decreases s.len(),
{
    if s.len() == 0 {
        0
    } else {
        digits_value(s.drop_last()) * 10 + ((s.last() as u32 - '0' as u32) as nat)
    }
}

/// The field without its optional leading `+`.
pub open spec fn digits_part(s: Seq<char>) -> Seq<char> {
    if s.len() > 0 && s[0] == '+' {
        s.drop_first()
    } else {
        s
    }
}

/// A decimal number with an optional leading `+`, as `u64` reads it.
pub open spec fn is_u64_text(s: Seq<char>) -> bool {
    let d = digits_part(s);
    &&& d.len() > 0
    &&& forall|i: int| 0 <= i < d.len() ==> is_digit(#[trigger] d[i])
    &&& digits_value(d) <= u64::MAX
}

/// The activity timestamp of a field: its number, or 0 when it is not one.
pub open spec fn activity_of(s: Seq<char>) -> u64 {
    if is_u64_text(s) {
        digits_value(digits_part(s)) as u64
    } else {
        0
    }
}

/// A line `activity TAB name TAB attached TAB description`; the description
/// keeps any further tabs. Lines with fewer than four fields give nothing.
pub open spec fn parse_line(l: Seq<char>) -> Option<RecordView> {
    let a = index_of(l, '\t');
    let r1 = l.skip(a + 1);
    let b = index_of(r1, '\t');
    let r2 = r1.skip(b + 1);
    let c = index_of(r2, '\t');
    if a < 0 || b < 0 || c < 0 {
        None
    } else {
        Some(
            RecordView {
                activity: activity_of(l.take(a)),
                name: r1.take(b),
                attached: r2.take(c) == seq!['1'],
                description: seq![':'] + r2.skip(c + 1),
            },
        )
    }
}

/// The records of the well-formed lines, in order.
pub open spec fn parse_lines(ls: Seq<Seq<char>>) -> Seq<RecordView>
    decreases ls.len(),
{
    if ls.len() == 0 {
        Seq::empty()
    } else {
        let r = parse_lines(ls.drop_last());
        match parse_line(ls.last()) {
            Some(x) => r.push(x),
            None => r,
        }
    }
}

pub open spec fn parse_snapshot_spec(text: Seq<char>) -> Seq<RecordView> {
    parse_lines(lines(text))
}

proof fn lemma_index_of(s: Seq<char>, c: char, j: int)
    requires
        0 <= j <= s.len(),
        forall|k: int| 0 <= k < j ==> s[k] != c,
        j == s.len() || s[j] == c,
    ensures
        index_of(s, c) == (if j == s.len() { -1 } else { j }),
    decreases s.len(),
{
    if s.len() > 0 && j > 0 {
        lemma_index_of(s.drop_first(), c, j - 1);
    }
}

/// The characters of `text`, in order.
fn chars_of(text: &str) -> (r: Vec<char>)
    ensures
        r@ == text@,
{
    let mut r: Vec<char> = Vec::new();
    for ch in it: text.chars()
        invariant
            r@ == it.seq().take(it.index() as int),
            it.seq() == text@,
    {
        r.push(ch);
    }
    r
}

/// First index in `from..to` holding `c`, or `to`.
fn find_char(s: &Vec<char>, from: usize, to: usize, c: char) -> (r: usize)
    requires
        from <= to <= s@.len(),
    ensures
        from <= r <= to,
        index_of(s@.subrange(from as int, to as int), c) == (if r == to {
            -1
        } else {
            r - from
        }),
{
    let mut i: usize = from;
    while i < to && s[i] != c
        invariant
            from <= i <= to <= s@.len(),
            forall|k: int| from <= k < i ==> s@[k] != c,
        decreases to - i,
    {
        i = i + 1;
    }
    proof {
        lemma_index_of(s@.subrange(from as int, to as int), c, i - from);
    }
    i
}

proof fn lemma_digits_prefix(d: Seq<char>, i: int)
    requires
        0 <= i <= d.len(),
    ensures
        digits_value(d.take(i)) <= digits_value(d),
    decreases d.len() - i,
{
    if i < d.len() {
        lemma_digits_prefix(d, i + 1);
        let t = d.take(i + 1);
        assert(t.drop_last() =~= d.take(i));
        let x = digits_value(d.take(i));
        let y = (t.last() as u32 - '0' as u32) as nat;
        assert(x * 10 + y >= x) by (nonlinear_arith);
    } else {
        assert(d.take(i) =~= d);
    }
}

/// Reads the activity field `s[from..to]`.
fn parse_activity(s: &Vec<char>, from: usize, to: usize) -> (r: u64)
    requires
        from <= to <= s@.len(),
    ensures
        r == activity_of(s@.subrange(from as int, to as int)),
{
    let ghost f = s@.subrange(from as int, to as int);
    let mut start: usize = from;
    if from < to && s[from] == '+' {
        start = from + 1;
    }
    let ghost d = s@.subrange(start as int, to as int);
    proof {
        if from < to && s@[from as int] == '+' {
            assert(d =~= f.drop_first());
        } else {
            assert(d =~= f);
        }
        assert(digits_part(f) == d);
    }
    if start == to {
        return 0;
    }
    let mut acc: u64 = 0;
    let mut i: usize = start;
    while i < to
        invariant
            start <= i <= to <= s@.len(),
            d == s@.subrange(start as int, to as int),
            f == s@.subrange(from as int, to as int),
            digits_part(f) == d,
            forall|k: int| 0 <= k < i - start ==> is_digit(#[trigger] d[k]),
            acc as nat == digits_value(d.take(i - start)),
        decreases to - i,
    {
        let ch = s[i];
        assert(d.take(i - start + 1).drop_last() =~= d.take(i - start));
        if !('0' <= ch && ch <= '9') {
            assert(!is_digit(d[i - start]));
            return 0;
        }
        let digit = (ch as u32 - '0' as u32) as u64;
        if acc > (u64::MAX - digit) / 10 {
            proof {
                lemma_digits_prefix(d, i - start + 1);
                let t = d.take(i - start + 1);
                assert(t.last() == ch);
                assert(digits_value(t) == acc * 10 + digit);
                assert(acc * 10 + digit > u64::MAX) by (nonlinear_arith)
                    requires
                        acc > (u64::MAX - digit) / 10,
                        digit <= 9,
                ;
            }
            return 0;
        }
        acc = acc * 10 + digit;
        i = i + 1;
    }
    assert(d.take(i - start) =~= d);
    acc
}

/// Builds the record of the line `s[from..to]`, if it has four fields.
fn parse_record(text: &str, s: &Vec<char>, from: usize, to: usize) -> (r: Option<SessionRecord>)
    requires
        s@ == text@,
        from <= to <= s@.len(),
    ensures
        r matches Some(x) ==> parse_line(s@.subrange(from as int, to as int)) == Some(x@),
        r is None ==> parse_line(s@.subrange(from as int, to as int)) is None,
{
    let ghost l = s@.subrange(from as int, to as int);
    let a = find_char(s, from, to, '\t');
    if a == to {
        return None;
    }
    assert(l.skip(a - from + 1) =~= s@.subrange(a + 1, to as int));
    let b = find_char(s, a + 1, to, '\t');
    if b == to {
        return None;
    }
    assert(s@.subrange(a + 1, to as int).skip(b - a) =~= s@.subrange(b + 1, to as int));
    let c = find_char(s, b + 1, to, '\t');
    if c == to {
        return None;
    }
    assert(s@.subrange(b + 1, to as int).skip(c - b) =~= s@.subrange(c + 1, to as int));
    let activity = parse_activity(s, from, a);
    assert(l.take(a - from) =~= s@.subrange(from as int, a as int));
    let name = text.substring_char(a + 1, b).to_owned();
    assert(s@.subrange(a + 1, to as int).take(b - a - 1) =~= s@.subrange(a + 1, b as int));
    let attached = c == b + 2 && s[b + 1] == '1';
    let ghost flag = s@.subrange(b + 1, to as int).take(c - b - 1);
    assert(flag =~= s@.subrange(b + 1, c as int));
    proof {
        if c == b + 2 && s@[b + 1] == '1' {
            assert(flag =~= seq!['1']);
        }
        if flag == seq!['1'] {
            assert(flag.len() == 1 && flag[0] == s@[b + 1]);
        }
    }
    let rest = text.substring_char(c + 1, to);
    let description = String::from_str(":").concat(rest);
    proof {
        reveal_strlit(":");
    }
    assert(s@.subrange(c + 1, to as int) =~= s@.subrange(b + 1, to as int).skip(c - b));
    let r = SessionRecord { activity, name, attached, description };
    assert(r@.activity == parse_line(l)->0.activity);
    assert(r@.name == parse_line(l)->0.name);
    assert(r@.attached == parse_line(l)->0.attached);
    assert(r@.description == parse_line(l)->0.description);
    Some(r)
}

/// Parses the multiplexer's listing: one record per well-formed line, in the
/// order of the lines.
pub fn parse_snapshot(text: &str) -> (r: Vec<SessionRecord>)
    ensures
        records_view(r@) == parse_snapshot_spec(text@),
{
    let s = chars_of(text);
    let n = s.len();
    let mut out: Vec<SessionRecord> = Vec::new();
    let mut start: usize = 0;
    let ghost mut done: Seq<Seq<char>> = Seq::empty();
    let mut i: usize = 0;
    assert(s@.take(0) =~= Seq::<char>::empty());
    assert(s@.subrange(0, 0) =~= Seq::<char>::empty());
    assert(records_view(out@) =~= Seq::<RecordView>::empty());
    assert(done.map_values(|l: Seq<char>| strip_cr(l)) =~= Seq::<Seq<char>>::empty());
    while i < n
        invariant
            s@ == text@,
            n == s@.len(),
            start <= i <= n,
            split_on(s@.take(i as int), '\n') == done.push(s@.subrange(start as int, i as int)),
            records_view(out@) == parse_lines(done.map_values(|l: Seq<char>| strip_cr(l))),
        decreases n - i,
    {
        let ghost prev = done.map_values(|l: Seq<char>| strip_cr(l));
        assert(s@.take(i + 1).drop_last() =~= s@.take(i as int));
        if s[i] == '\n' {
            let mut end: usize = i;
            if end > start && s[end - 1] == '\r' {
                end = end - 1;
            }
            let ghost line = s@.subrange(start as int, i as int);
            assert(strip_cr(line) =~= s@.subrange(start as int, end as int));
            let rec = parse_record(text, &s, start, end);
            let ghost old_out = records_view(out@);
            match rec {
                Some(x) => {
                    out.push(x);
                    assert(records_view(out@) =~= old_out.push(x@));
                },
                None => {},
            }
            proof {
                done = done.push(line);
                assert(done.map_values(|l: Seq<char>| strip_cr(l)) =~= prev.push(strip_cr(line)));
                assert(done.map_values(|l: Seq<char>| strip_cr(l)).drop_last() =~= prev);
                assert(s@.subrange(i + 1, i + 1) =~= Seq::<char>::empty());
            }
            start = i + 1;
        } else {
            assert(s@.subrange(start as int, i + 1) =~= s@.subrange(start as int, i as int).push(
                s@[i as int],
            ));
            assert(done.push(s@.subrange(start as int, i + 1)) =~= done.push(
                s@.subrange(start as int, i as int),
            ).update(done.len() as int, s@.subrange(start as int, i + 1)));
        }
        i = i + 1;
    }
    assert(s@.take(n as int) =~= s@);
    let ghost body = done.map_values(|l: Seq<char>| strip_cr(l));
    let ghost p = split_on(s@, '\n');
    assert(p.drop_last() =~= done);
    if start < n {
        let rec = parse_record(text, &s, start, n);
        let ghost old_out = records_view(out@);
        let ghost last = s@.subrange(start as int, n as int);
        assert(body.push(last).drop_last() =~= body);
        match rec {
            Some(x) => {
                out.push(x);
                assert(records_view(out@) =~= old_out.push(x@));
            },
            None => {},
        }
    }
    out
}

} // verus!
