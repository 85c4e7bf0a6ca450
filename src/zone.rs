use vstd::prelude::*;

use crate::offset::{lemma_split_on_nonempty, split_on};

verus! {

/// One timezone: its identifier, its abbreviation and its UTC offset in seconds.
pub struct ZoneInfo {
    pub name: String,
    pub abbreviation: String,
    pub utc_off: i64,
}

/// A record as plain values: name, abbreviation and offset in seconds.
pub type ZoneView = (Seq<char>, Seq<char>, int);

impl View for ZoneInfo {
    type V = ZoneView;

    open spec fn view(&self) -> ZoneView {
        (self.name@, self.abbreviation@, self.utc_off as int)
    }
}

impl DeepView for ZoneInfo {
    type V = ZoneView;

    open spec fn deep_view(&self) -> ZoneView {
        self@
    }
}

/// How one character stands inside a C++ string literal.
pub open spec fn escape_char(c: char) -> Seq<char> {
    if c == '"' {
        seq!['\\', '"']
    } else if c == '\\' {
        seq!['\\', '\\']
    } else if c == '\n' {
        seq!['\\', 'n']
    } else if c == '\r' {
        seq!['\\', 'r']
    } else {
        seq![c]
    }
}

pub open spec fn escaped(s: Seq<char>) -> Seq<char>
    decreases s.len(),
{
    if s.len() == 0 {
        Seq::empty()
    } else {
        escaped(s.drop_last()) + escape_char(s.last())
    }
}

/// `s` as a C++ string literal.
pub open spec fn quoted(s: Seq<char>) -> Seq<char> {
    seq!['"'] + escaped(s) + seq!['"']
}

pub open spec fn digit_char(d: nat) -> char {
    ((48 + d) as u8) as char
}

/// The decimal digits of `n`, most significant first, without leading zeros.
pub open spec fn digits_of(n: nat) -> Seq<char>
    decreases n,
{
    if n < 10 {
        seq![digit_char(n)]
    } else {
        digits_of(n / 10).push(digit_char(n % 10))
    }
}

/// `v` in decimal, with a `-` in front when it is negative.
pub open spec fn int_text(v: int) -> Seq<char> {
    if v < 0 {
        seq!['-'] + digits_of((-v) as nat)
    } else {
        digits_of(v as nat)
    }
}

/// `{"name","abbreviation",offset}`.
pub open spec fn zone_literal(name: Seq<char>, abbreviation: Seq<char>, off: int) -> Seq<char> {
    seq!['{'] + quoted(name) + seq![','] + quoted(abbreviation) + seq![','] + int_text(off) + seq![
        '}',
    ]
}

pub open spec fn literal_of(z: ZoneView) -> Seq<char> {
    zone_literal(z.0, z.1, z.2)
}

impl ZoneInfo {

    /// A record with the given name, abbreviation and offset in seconds.
    pub fn new(n: &str, a: &str, u: i64) -> (r: ZoneInfo)
        ensures
            r.name@ == n@,
            r.abbreviation@ == a@,
            r.utc_off == u,
    {
        ZoneInfo { name: String::from_str(n), abbreviation: String::from_str(a), utc_off: u }
    }

    /// The record as a C++ brace initializer: `{"name","abbreviation",offset}`.
    pub fn to_cpp_structure_literal(&self) -> (r: String)
        ensures
            r@ == literal_of(self@),
    {
        let mut out = String::new();
        push_str(&mut out, "{");
        push_quoted(&mut out, self.name.as_str());
        push_str(&mut out, ",");
        push_quoted(&mut out, self.abbreviation.as_str());
        push_str(&mut out, ",");
        push_int(&mut out, self.utc_off);
        push_str(&mut out, "}");
        proof {
            reveal_strlit("{");
            reveal_strlit(",");
            reveal_strlit("}");
        }
        assert(out@ =~= literal_of(self@));
        out
    }
}

/// All records, one per line and each followed by a comma, between a line `{` and a line `}`.
pub open spec fn record_lines(zs: Seq<ZoneView>) -> Seq<char>
    decreases zs.len(),
{
    if zs.len() == 0 {
        Seq::empty()
    } else {
        record_lines(zs.drop_last()) + literal_of(zs.last()) + seq![',', '\n']
    }
}

pub open spec fn collection_text(zs: Seq<ZoneView>) -> Seq<char> {
    seq!['{', '\n'] + record_lines(zs) + seq!['}', '\n']
}

/// The records as a C++ array initializer, one record per line, in order.
pub fn format_collection(zones: &Vec<ZoneInfo>) -> (r: String)
    ensures
        r@ == collection_text(zones.deep_view()),
{
    let mut out = String::new();
    push_str(&mut out, "{\n");
    proof {
        reveal_strlit("{\n");
        assert(zones.deep_view().subrange(0, 0) =~= Seq::<ZoneView>::empty());
    }
    assert(out@ =~= seq!['{', '\n'] + record_lines(zones.deep_view().subrange(0, 0)));
    let mut i: usize = 0;
    while i < zones.len()
        invariant
            i <= zones@.len(),
            out@ == seq!['{', '\n'] + record_lines(zones.deep_view().subrange(0, i as int)),
        decreases zones@.len() - i,
    {
        proof {
            reveal_strlit("{\n");
        }
        let line = zones[i].to_cpp_structure_literal();
        push_str(&mut out, line.as_str());
        push_str(&mut out, ",\n");
        proof {
            reveal_strlit(",\n");
            assert(zones.deep_view().subrange(0, i + 1).drop_last() =~= zones.deep_view().subrange(
                0,
                i as int,
            ));
        }
        assert(out@ =~= seq!['{', '\n'] + record_lines(zones.deep_view().subrange(0, i + 1)));
        i += 1;
    }
    push_str(&mut out, "}\n");
    proof {
        reveal_strlit("{\n");
        reveal_strlit("}\n");
        assert(zones.deep_view().subrange(0, i as int) =~= zones.deep_view());
    }
    assert(out@ =~= collection_text(zones.deep_view()));
    out
}

/// The lines of `collection_text(zs)`: `{`, then for each record in order its literal and a
/// comma, then `}`; the final newline leaves an empty last piece.
pub proof fn lemma_collection_lines(zs: Seq<ZoneView>)
    ensures
        split_on(collection_text(zs), '\n') == seq![seq!['{']] + zs.map_values(
            |z: ZoneView| literal_of(z).push(','),
        ) + seq![seq!['}'], Seq::<char>::empty()],
{
    let tail = seq!['}', '\n'];
    lemma_split_record_lines(zs, tail);
    assert(collection_text(zs) =~= seq!['{'] + seq!['\n'] + (record_lines(zs) + tail));
    lemma_split_concat(seq!['{'], record_lines(zs) + tail, '\n');
    lemma_split_no_sep(seq!['{'], '\n');
    assert(tail =~= seq!['}'] + seq!['\n'] + Seq::<char>::empty());
    lemma_split_concat(seq!['}'], Seq::<char>::empty(), '\n');
    lemma_split_no_sep(seq!['}'], '\n');
    let lines = zs.map_values(|z: ZoneView| literal_of(z).push(','));
    assert(split_on(Seq::<char>::empty(), '\n') =~= seq![Seq::<char>::empty()]);
    assert(seq![seq!['{']] + (lines + (seq![seq!['}']] + seq![Seq::<char>::empty()])) =~= seq![
        seq!['{'],
    ] + lines + seq![seq!['}'], Seq::<char>::empty()]);
}

pub open spec fn no_newline(s: Seq<char>) -> bool {
    forall|i: int| 0 <= i < s.len() ==> s[i] != '\n'
}

proof fn lemma_no_newline_concat(a: Seq<char>, b: Seq<char>)
    requires
        no_newline(a),
        no_newline(b),
    ensures
        no_newline(a + b),
{
    assert forall|i: int| 0 <= i < (a + b).len() implies (a + b)[i] != '\n' by {
        if i >= a.len() {
            assert((a + b)[i] == b[i - a.len()]);
        }
    }
}

proof fn lemma_escaped_no_newline(s: Seq<char>)
    ensures
        no_newline(escaped(s)),
    decreases s.len(),
{
    if s.len() > 0 {
        lemma_escaped_no_newline(s.drop_last());
        lemma_no_newline_concat(escaped(s.drop_last()), escape_char(s.last()));
    }
}

proof fn lemma_digits_no_newline(n: nat)
    ensures
        no_newline(digits_of(n)),
    decreases n,
{
    if n >= 10 {
        lemma_digits_no_newline(n / 10);
        lemma_no_newline_concat(digits_of(n / 10), seq![digit_char(n % 10)]);
        assert(digits_of(n) =~= digits_of(n / 10) + seq![digit_char(n % 10)]);
    }
}

proof fn lemma_literal_no_newline(z: ZoneView)
    ensures
        no_newline(literal_of(z).push(',')),
{
    lemma_escaped_no_newline(z.0);
    lemma_escaped_no_newline(z.1);
    let v = z.2;
    if v < 0 {
        lemma_digits_no_newline((-v) as nat);
        lemma_no_newline_concat(seq!['-'], digits_of((-v) as nat));
    } else {
        lemma_digits_no_newline(v as nat);
    }
    let qn = quoted(z.0);
    let qa = quoted(z.1);
    lemma_no_newline_concat(seq!['"'], escaped(z.0));
    lemma_no_newline_concat(seq!['"'] + escaped(z.0), seq!['"']);
    lemma_no_newline_concat(seq!['"'], escaped(z.1));
    lemma_no_newline_concat(seq!['"'] + escaped(z.1), seq!['"']);
    lemma_no_newline_concat(seq!['{'], qn);
    lemma_no_newline_concat(seq!['{'] + qn, seq![',']);
    lemma_no_newline_concat(seq!['{'] + qn + seq![','], qa);
    lemma_no_newline_concat(seq!['{'] + qn + seq![','] + qa, seq![',']);
    lemma_no_newline_concat(seq!['{'] + qn + seq![','] + qa + seq![','], int_text(v));
    lemma_no_newline_concat(seq!['{'] + qn + seq![','] + qa + seq![','] + int_text(v), seq!['}']);
    lemma_no_newline_concat(literal_of(z), seq![',']);
    assert(literal_of(z).push(',') =~= literal_of(z) + seq![',']);
}

proof fn lemma_split_no_sep(s: Seq<char>, sep: char)
    requires
        forall|i: int| 0 <= i < s.len() ==> s[i] != sep,
    ensures
        split_on(s, sep) == seq![s],
    decreases s.len(),
{
    if s.len() > 0 {
        lemma_split_no_sep(s.drop_last(), sep);
        assert(s.drop_last().push(s.last()) =~= s);
        assert(seq![s.drop_last()].update(0, s.drop_last().push(s.last())) =~= seq![s]);
    } else {
        assert(s =~= Seq::<char>::empty());
    }
}

proof fn lemma_split_concat(a: Seq<char>, b: Seq<char>, sep: char)
    ensures
        split_on(a + seq![sep] + b, sep) == split_on(a, sep) + split_on(b, sep),
    decreases b.len(),
{
    let s = a + seq![sep] + b;
    lemma_split_on_nonempty(a, sep);
    if b.len() == 0 {
        assert(s.drop_last() =~= a);
        assert(split_on(a, sep).push(Seq::empty()) =~= split_on(a, sep) + seq![Seq::<char>::empty()]);
    } else {
        assert(s.drop_last() =~= a + seq![sep] + b.drop_last());
        lemma_split_concat(a, b.drop_last(), sep);
        lemma_split_on_nonempty(b.drop_last(), sep);
        let fa = split_on(a, sep);
        let fb = split_on(b.drop_last(), sep);
        let c = b.last();
        assert(s.last() == c);
        if c == sep {
            assert((fa + fb).push(Seq::empty()) =~= fa + fb.push(Seq::empty()));
        } else {
            assert((fa + fb).update((fa + fb).len() - 1, (fa + fb).last().push(c)) =~= fa + fb.update(
                fb.len() - 1,
                fb.last().push(c),
            ));
        }
    }
}

proof fn lemma_split_record_lines(zs: Seq<ZoneView>, t: Seq<char>)
    ensures
        split_on(record_lines(zs) + t, '\n') == zs.map_values(|z: ZoneView| literal_of(z).push(','))
            + split_on(t, '\n'),
    decreases zs.len(),
{
    let f = |z: ZoneView| literal_of(z).push(',');
    if zs.len() == 0 {
        assert(record_lines(zs) + t =~= t);
        assert(zs.map_values(f) + split_on(t, '\n') =~= split_on(t, '\n'));
    } else {
        let rest = zs.drop_last();
        let l = literal_of(zs.last()).push(',');
        let t2 = l + seq!['\n'] + t;
        assert(record_lines(zs) + t =~= record_lines(rest) + t2);
        lemma_split_record_lines(rest, t2);
        lemma_split_concat(l, t, '\n');
        lemma_literal_no_newline(zs.last());
        lemma_split_no_sep(l, '\n');
        assert(zs.map_values(f) =~= rest.map_values(f).push(l));
        assert(rest.map_values(f) + (seq![l] + split_on(t, '\n')) =~= rest.map_values(f).push(l)
            + split_on(t, '\n'));
    }
}

fn push_str(out: &mut String, s: &str)
    ensures
        final(out)@ == old(out)@ + s@,
{
    out.append(s);
}

/// Appends `s` between double quotes, escaping what a C++ string literal cannot hold as is.
fn push_quoted(out: &mut String, s: &str)
    ensures
        final(out)@ == old(out)@ + quoted(s@),
{
    proof {
        reveal_strlit("\"");
    }
    push_str(out, "\"");
    let ghost start = out@;
    let n = s.unicode_len();
    let mut i: usize = 0;
    while i < n
        invariant
            n == s@.len(),
            i <= n,
            out@ == start + escaped(s@.subrange(0, i as int)),
        decreases n - i,
    {
        let c = s.get_char(i);
        proof {
            reveal_strlit("\\\"");
            reveal_strlit("\\\\");
            reveal_strlit("\\n");
            reveal_strlit("\\r");
            assert(s@.subrange(0, i + 1).drop_last() =~= s@.subrange(0, i as int));
        }
        if c == '"' {
            push_str(out, "\\\"");
        } else if c == '\\' {
            push_str(out, "\\\\");
        } else if c == '\n' {
            push_str(out, "\\n");
        } else if c == '\r' {
            push_str(out, "\\r");
        } else {
            push_str(out, s.substring_char(i, i + 1));
            assert(s@.subrange(i as int, i + 1) =~= seq![c]);
        }
        assert(out@ =~= start + escaped(s@.subrange(0, i + 1)));
        i += 1;
    }
    assert(s@.subrange(0, n as int) =~= s@);
    push_str(out, "\"");
    assert(final(out)@ =~= old(out)@ + quoted(s@));
}

fn digit_str(d: u64) -> (r: &'static str)
    requires
        d < 10,
    ensures
        r@ == seq![digit_char(d as nat)],
{
    proof {
        reveal_strlit("0");
        reveal_strlit("1");
        reveal_strlit("2");
        reveal_strlit("3");
        reveal_strlit("4");
        reveal_strlit("5");
        reveal_strlit("6");
        reveal_strlit("7");
        reveal_strlit("8");
        reveal_strlit("9");
    }
    let r = if d == 0 {
        "0"
    } else if d == 1 {
        "1"
    } else if d == 2 {
        "2"
    } else if d == 3 {
        "3"
    } else if d == 4 {
        "4"
    } else if d == 5 {
        "5"
    } else if d == 6 {
        "6"
    } else if d == 7 {
        "7"
    } else if d == 8 {
        "8"
    } else {
        "9"
    };
    assert(r@ =~= seq![digit_char(d as nat)]);
    r
}

fn push_digits(out: &mut String, n: u64)
    ensures
        final(out)@ == old(out)@ + digits_of(n as nat),
    decreases n,
{
    if n >= 10 {
        push_digits(out, n / 10);
    }
    push_str(out, digit_str(n % 10));
    assert(final(out)@ =~= old(out)@ + digits_of(n as nat));
}

fn push_int(out: &mut String, v: i64)
    ensures
        final(out)@ == old(out)@ + int_text(v as int),
{
    if v < 0 {
        proof {
            reveal_strlit("-");
        }
        push_str(out, "-");
        push_digits(out, (0 - v as i128) as u64);
    } else {
        push_digits(out, v as u64);
    }
    assert(final(out)@ =~= old(out)@ + int_text(v as int));
}

} // verus!
