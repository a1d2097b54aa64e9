//! The ledger store's line-record format.
//!
//! One record per line, four comma-separated fields in fixed order:
//! `payer,payees,description,amount`, where `payees` is a space-separated
//! list of identifiers and `amount` is the minor-unit count in decimal
//! digits. A line that does not fit this shape is corrupt; reading skips
//! such lines and reports their positions instead of failing the whole
//! read.

use vstd::prelude::*;
use vstd::string::StrSliceExecFns;
use vstd::string::StringExecFns;
use crate::event::ExpenseEvent;
use crate::event::event_wf;
use crate::event::id_views;
use crate::event::has_id;

verus! {

/// The fields of `s` between occurrences of `sep`: splitting the empty
/// sequence yields one empty field, and every separator opens a new field.
pub open spec fn split_on(s: Seq<char>, sep: char) -> Seq<Seq<char>>
    decreases s.len(),
{
    if s.len() == 0 {
        seq![Seq::<char>::empty()]
    } else if s.last() == sep {
        split_on(s.drop_last(), sep).push(Seq::<char>::empty())
    } else {
        let r = split_on(s.drop_last(), sep);
        r.update(r.len() - 1, r.last().push(s.last()))
    }
}

pub proof fn lemma_split_on_len(s: Seq<char>, sep: char)
    ensures
        split_on(s, sep).len() >= 1,
    decreases s.len(),
{
    if s.len() > 0 {
        lemma_split_on_len(s.drop_last(), sep);
    }
}

/// A participant identifier as stored: non-empty and free of spaces.
pub open spec fn id_ok(s: Seq<char>) -> bool {
    s.len() > 0 && forall|n: int| 0 <= n < s.len() ==> s[n] != ' '
}

pub open spec fn is_digit(c: char) -> bool {
    '0' <= c && c <= '9'
}

pub open spec fn all_digits(s: Seq<char>) -> bool {
    forall|n: int| 0 <= n < s.len() ==> is_digit(#[trigger] s[n])
}

/// The number denoted by a digit sequence, most significant digit first.
pub open spec fn digits_value(s: Seq<char>) -> int
    decreases s.len(),
{
    if s.len() == 0 {
        0
    } else {
        digits_value(s.drop_last()) * 10 + (s.last() as int - '0' as int)
    }
}

/// A stored amount: at least one digit, positive, and within `u64`.
pub open spec fn amount_ok(s: Seq<char>) -> bool {
    &&& s.len() > 0
    &&& all_digits(s)
    &&& 0 < digits_value(s) <= u64::MAX as int
}

/// A parsable record line.
pub open spec fn line_ok(line: Seq<char>) -> bool {
    let fs = split_on(line, ',');
    &&& fs.len() == 4
    &&& id_ok(fs[0])
    &&& split_on(fs[1], ' ').len() >= 1
    &&& (forall|n: int| 0 <= n < split_on(fs[1], ' ').len()
        ==> (#[trigger] split_on(fs[1], ' ')[n]).len() > 0)
    &&& fs[2].len() > 0
    &&& amount_ok(fs[3])
}

/// How a parsed event corresponds to the line it was read from.
pub open spec fn record_matches(e: ExpenseEvent, line: Seq<char>) -> bool {
    let fs = split_on(line, ',');
    &&& event_wf(e)
    &&& e.payer@ == fs[0]
    &&& e.description@ == fs[2]
    &&& e.amount as int == digits_value(fs[3])
    &&& forall|x: Seq<char>| has_id(id_views(e.payees@), x) == has_id(split_on(fs[1], ' '), x)
}

/// Splits `s` at every occurrence of `sep`, as `split_on` describes.
fn split_str(s: &str, sep: char) -> (r: Vec<String>)
    ensures
        id_views(r@) == split_on(s@, sep),
{
    let len = s.unicode_len();
    let mut r: Vec<String> = Vec::new();
    let mut start: usize = 0;
    let mut i: usize = 0;
    proof {
        assert(s@.take(0) =~= Seq::<char>::empty());
        assert(s@.subrange(0, 0) =~= Seq::<char>::empty());
        assert(id_views(r@).push(s@.subrange(0, 0)) =~= split_on(s@.take(0), sep));
    }
    while i < len
        invariant
            0 <= start as int <= i as int <= len as int,
            len == s@.len(),
            split_on(s@.take(i as int), sep) == id_views(r@).push(s@.subrange(start as int, i as int)),
        decreases len - i,
    {
        let c = s.get_char(i);
        proof {
            assert(s@.take(i + 1).drop_last() =~= s@.take(i as int));
            assert(s@.take(i + 1).last() == s@[i as int]);
        }
        if c == sep {
            let field = s.substring_char(start, i).to_owned();
            r.push(field);
            start = i + 1;
            proof {
                assert(id_views(r@) =~= split_on(s@.take(i as int), sep));
                assert(s@.subrange(i + 1, i + 1) =~= Seq::<char>::empty());
                assert(id_views(r@).push(s@.subrange(i + 1, i + 1)) =~= split_on(
                    s@.take(i + 1),
                    sep,
                ));
            }
        } else {
            proof {
                let prev = split_on(s@.take(i as int), sep);
                assert(prev.last() == s@.subrange(start as int, i as int));
                assert(s@.subrange(start as int, i as int).push(s@[i as int]) =~= s@.subrange(
                    start as int,
                    i + 1,
                ));
                assert(id_views(r@).push(s@.subrange(start as int, i + 1)) =~= prev.update(
                    prev.len() - 1,
                    prev.last().push(s@[i as int]),
                ));
            }
        }
        i = i + 1;
    }
    let field = s.substring_char(start, len).to_owned();
    r.push(field);
    proof {
        assert(s@.take(len as int) =~= s@);
        assert(id_views(r@) =~= split_on(s@, sep));
    }
    r
}

/// Whether `s` is free of spaces.
fn space_free(s: &str) -> (r: bool)
    ensures
        r == forall|n: int| 0 <= n < s@.len() ==> s@[n] != ' ',
{
    let len = s.unicode_len();
    let mut i: usize = 0;
    while i < len
        invariant
            i <= len,
            len == s@.len(),
            forall|n: int| 0 <= n < i ==> s@[n] != ' ',
        decreases len - i,
    {
        if s.get_char(i) == ' ' {
            return false;
        }
        i = i + 1;
    }
    true
}

/// Reads a decimal minor-unit amount, exactly when `amount_ok` holds.
fn parse_amount(s: &str) -> (r: Option<u64>)
    ensures
        r is Some <==> amount_ok(s@),
        r matches Some(v) ==> v as int == digits_value(s@),
{
    let len = s.unicode_len();
    if len == 0 {
        return None;
    }
    let mut acc: u64 = 0;
    let mut i: usize = 0;
    proof {
        assert(s@.take(0) =~= Seq::<char>::empty());
    }
    while i < len
        invariant
            i <= len,
            len == s@.len(),
            acc as int == digits_value(s@.take(i as int)),
            all_digits(s@.take(i as int)),
        decreases len - i,
    {
        let c = s.get_char(i);
        proof {
            assert(s@.take(i + 1).drop_last() =~= s@.take(i as int));
            assert(s@.take(i + 1).last() == s@[i as int]);
        }
        if c < '0' || c > '9' {
            proof {
                assert(!is_digit(s@[i as int]));
                assert(!all_digits(s@));
            }
            return None;
        }
        let d: u64 = (c as u64) - ('0' as u64);
        if acc > (u64::MAX - d) / 10 {
            proof {
                assert(digits_value(s@.take(i + 1)) > u64::MAX as int) by {
                    assert(acc as int * 10 + d > u64::MAX as int) by (nonlinear_arith)
                        requires
                            acc as int > (u64::MAX as int - d as int) / 10,
                            (u64::MAX as int - d as int) == ((u64::MAX as int - d as int) / 10) * 10
                                + (u64::MAX as int - d as int) % 10,
                            0 <= (u64::MAX as int - d as int) % 10 < 10,
                            0 <= d < 10,
                    ;
                }
                if all_digits(s@) {
                    lemma_digits_value_prefix_le(s@, i + 1);
                    assert(digits_value(s@) > u64::MAX as int);
                }
                assert(!amount_ok(s@));
            }
            return None;
        }
        proof {
            assert(acc as int * 10 + d <= u64::MAX as int) by (nonlinear_arith)
                requires
                    acc as int <= (u64::MAX as int - d as int) / 10,
                    (u64::MAX as int - d as int) == ((u64::MAX as int - d as int) / 10) * 10 + (
                    u64::MAX as int - d as int) % 10,
                    0 <= (u64::MAX as int - d as int) % 10 < 10,
                    0 <= d < 10,
            ;
        }
        acc = acc * 10 + d;
        i = i + 1;
    }
    proof {
        assert(s@.take(len as int) =~= s@);
    }
    if acc == 0 {
        return None;
    }
    Some(acc)
}

/// A digit string's value only grows as digits are appended.
proof fn lemma_digits_value_prefix_le(s: Seq<char>, i: int)
    requires
        0 <= i <= s.len(),
        all_digits(s),
    ensures
        digits_value(s.take(i)) <= digits_value(s),
        digits_value(s) >= 0,
    decreases s.len() - i,
{
    if i == s.len() {
        assert(s.take(i) =~= s);
        lemma_digits_value_nonneg(s);
    } else {
        lemma_digits_value_prefix_le(s, i + 1);
        assert(s.take(i + 1).drop_last() =~= s.take(i));
        assert(s.take(i + 1).last() == s[i]);
        assert(is_digit(s[i]));
        lemma_digits_value_nonneg(s.take(i));
        assert(digits_value(s.take(i)) * 10 >= digits_value(s.take(i))) by (nonlinear_arith)
            requires
                digits_value(s.take(i)) >= 0,
        ;
    }
}

proof fn lemma_digits_value_nonneg(s: Seq<char>)
    requires
        all_digits(s),
    ensures
        digits_value(s) >= 0,
    decreases s.len(),
{
    if s.len() > 0 {
        assert(forall|n: int| 0 <= n < s.drop_last().len() ==> #[trigger] s.drop_last()[n] == s[n]);
        lemma_digits_value_nonneg(s.drop_last());
        assert(is_digit(s.last()));
        assert(digits_value(s.drop_last()) * 10 >= 0) by (nonlinear_arith)
            requires
                digits_value(s.drop_last()) >= 0,
        ;
    }
}

/// Parses one record line, exactly when `line_ok` holds of it.
pub fn parse_record(line: &str) -> (r: Option<ExpenseEvent>)
    ensures
        r is Some <==> line_ok(line@),
        r matches Some(e) ==> record_matches(e, line@),
{
    let fields = split_str(line, ',');
    if fields.len() != 4 {
        return None;
    }
    if fields[0].as_str().is_empty() {
        return None;
    }
    if !space_free(fields[0].as_str()) {
        return None;
    }
    let payees_raw = split_str(fields[1].as_str(), ' ');
    let mut n: usize = 0;
    while n < payees_raw.len()
        invariant
            n <= payees_raw@.len(),
            id_views(payees_raw@) == split_on(split_on(line@, ',')[1], ' '),
            split_on(line@, ',').len() == 4,
            forall|m: int| 0 <= m < n ==> (#[trigger] payees_raw@[m]@).len() > 0,
        decreases payees_raw@.len() - n,
    {
        if payees_raw[n].as_str().is_empty() {
            proof {
                assert(id_views(payees_raw@)[n as int].len() == 0);
            }
            return None;
        }
        n = n + 1;
    }
    proof {
        lemma_split_on_len(split_on(line@, ',')[1], ' ');
        assert(forall|m: int| 0 <= m < id_views(payees_raw@).len()
            ==> (#[trigger] id_views(payees_raw@)[m]).len() > 0);
    }
    if fields[2].as_str().is_empty() {
        return None;
    }
    let amount = match parse_amount(fields[3].as_str()) {
        Some(v) => v,
        None => {
            return None;
        },
    };
    let payer = fields[0].clone();
    let description = fields[2].clone();
    match ExpenseEvent::new(payer, payees_raw, description, amount) {
        Ok(e) => Some(e),
        Err(_) => {
            proof {
                assert(false);
            }
            None
        },
    }
}

/// The decimal digit for a value below ten.
pub open spec fn digit_char(d: int) -> char {
    if d == 0 {
        '0'
    } else if d == 1 {
        '1'
    } else if d == 2 {
        '2'
    } else if d == 3 {
        '3'
    } else if d == 4 {
        '4'
    } else if d == 5 {
        '5'
    } else if d == 6 {
        '6'
    } else if d == 7 {
        '7'
    } else if d == 8 {
        '8'
    } else {
        '9'
    }
}

/// The decimal rendering of `v`, most significant digit first.
pub open spec fn digits_of(v: int) -> Seq<char>
    decreases v,
{
    if v < 10 {
        seq![digit_char(v)]
    } else {
        digits_of(v / 10).push(digit_char(v % 10))
    }
}

/// A list of identifiers joined by single spaces.
pub open spec fn join_ids(ids: Seq<Seq<char>>) -> Seq<char>
    decreases ids.len(),
{
    if ids.len() == 0 {
        Seq::empty()
    } else if ids.len() == 1 {
        ids[0]
    } else {
        join_ids(ids.drop_last()) + seq![' '] + ids.last()
    }
}

/// The record line an event is stored as.
pub open spec fn encode_spec(e: ExpenseEvent) -> Seq<char> {
    e.payer@ + seq![','] + join_ids(id_views(e.payees@)) + seq![','] + e.description@ + seq![',']
        + digits_of(e.amount as int)
}

/// A field free of the record delimiters (and of spaces, unless allowed).
pub open spec fn field_clean_spec(s: Seq<char>, allow_space: bool) -> bool {
    forall|n: int| 0 <= n < s.len()
        ==> (#[trigger] s[n]) != ',' && s[n] != '\n' && (allow_space || s[n] != ' ')
}

/// An event whose fields can be stored without colliding with the
/// delimiters of the record format.
pub open spec fn encodable(e: ExpenseEvent) -> bool {
    &&& field_clean_spec(e.payer@, false)
    &&& field_clean_spec(e.description@, true)
    &&& forall|n: int| 0 <= n < e.payees@.len()
        ==> field_clean_spec((#[trigger] e.payees@[n])@, false)
}

fn field_clean(s: &str, allow_space: bool) -> (r: bool)
    ensures
        r == field_clean_spec(s@, allow_space),
{
    let len = s.unicode_len();
    let mut i: usize = 0;
    while i < len
        invariant
            i <= len,
            len == s@.len(),
            forall|n: int| 0 <= n < i
                ==> (#[trigger] s@[n]) != ',' && s@[n] != '\n' && (allow_space || s@[n] != ' '),
        decreases len - i,
    {
        let c = s.get_char(i);
        if c == ',' || c == '\n' || (!allow_space && c == ' ') {
            return false;
        }
        i = i + 1;
    }
    true
}

fn digit_str(d: u64) -> (r: &'static str)
    requires
        d < 10,
    ensures
        r@ == seq![digit_char(d as int)],
{
    proof {
        reveal_strlit("0");
        reveal_strlit("1");
        reveal_strlit("2");
        reveal_strlit("3");
        reveal_strlit("4");
        reveal_strlit("5");
        reveal_strlit("6");
        reveal_strlit("7");
        reveal_strlit("8");
        reveal_strlit("9");
    }
    if d == 0 {
        "0"
    } else if d == 1 {
        "1"
    } else if d == 2 {
        "2"
    } else if d == 3 {
        "3"
    } else if d == 4 {
        "4"
    } else if d == 5 {
        "5"
    } else if d == 6 {
        "6"
    } else if d == 7 {
        "7"
    } else if d == 8 {
        "8"
    } else {
        "9"
    }
}

/// Renders an amount in decimal, as `digits_of` describes.
fn render_amount(v: u64) -> (r: String)
    ensures
        r@ == digits_of(v as int),
    decreases v,
{
    if v < 10 {
        let s = digit_str(v).to_owned();
        proof {
            assert(s@ =~= digits_of(v as int));
        }
        s
    } else {
        let mut s = render_amount(v / 10);
        s.append(digit_str(v % 10));
        proof {
            assert(s@ =~= digits_of(v as int));
        }
        s
    }
}

/// Builds the record line of the event: exactly `encode_spec`, unless a
/// field contains a delimiter of the format, which is refused.
pub fn encode_record(e: &ExpenseEvent) -> (r: Option<String>)
    ensures
        r is Some <==> encodable(*e),
        r matches Some(s) ==> s@ == encode_spec(*e),
{
    if !field_clean(e.payer.as_str(), false) {
        return None;
    }
    if !field_clean(e.description.as_str(), true) {
        return None;
    }
    let mut joined = String::new();
    let mut i: usize = 0;
    proof {
        assert(id_views(e.payees@).take(0) =~= Seq::<Seq<char>>::empty());
        assert(joined@ =~= join_ids(id_views(e.payees@).take(0)));
    }
    while i < e.payees.len()
        invariant
            i <= e.payees@.len(),
            joined@ == join_ids(id_views(e.payees@).take(i as int)),
            forall|n: int| 0 <= n < i ==> field_clean_spec((#[trigger] e.payees@[n])@, false),
        decreases e.payees@.len() - i,
    {
        if !field_clean(e.payees[i].as_str(), false) {
            return None;
        }
        if i > 0 {
            proof {
                reveal_strlit(" ");
            }
            s_append_space(&mut joined);
        }
        joined.append(e.payees[i].as_str());
        proof {
            let pv = id_views(e.payees@);
            assert(pv.take(i + 1).drop_last() =~= pv.take(i as int));
            assert(pv.take(i + 1).last() == pv[i as int]);
            assert(joined@ =~= join_ids(pv.take(i + 1)));
        }
        i = i + 1;
    }
    proof {
        assert(id_views(e.payees@).take(e.payees@.len() as int) =~= id_views(e.payees@));
    }
    let mut line = e.payer.clone();
    s_append_comma(&mut line);
    line.append(joined.as_str());
    s_append_comma(&mut line);
    line.append(e.description.as_str());
    s_append_comma(&mut line);
    let rendered = render_amount(e.amount);
    line.append(rendered.as_str());
    proof {
        assert(line@ =~= encode_spec(*e));
    }
    Some(line)
}

fn s_append_comma(s: &mut String)
    ensures
        final(s)@ == old(s)@ + seq![','],
{
    proof {
        reveal_strlit(",");
    }
    s.append(",");
    proof {
        assert(s@ =~= old(s)@ + seq![',']);
    }
}

fn s_append_space(s: &mut String)
    ensures
        final(s)@ == old(s)@ + seq![' '],
{
    proof {
        reveal_strlit(" ");
    }
    s.append(" ");
    proof {
        assert(s@ =~= old(s)@ + seq![' ']);
    }
}

/// The positions of the corrupt lines, in order.
pub open spec fn bad_indices(lines: Seq<Seq<char>>) -> Seq<int>
    decreases lines.len(),
{
    if lines.len() == 0 {
        Seq::empty()
    } else if line_ok(lines.last()) {
        bad_indices(lines.drop_last())
    } else {
        bad_indices(lines.drop_last()).push(lines.len() - 1)
    }
}

/// The positions of the parsable lines, in order.
pub open spec fn good_indices(lines: Seq<Seq<char>>) -> Seq<int>
    decreases lines.len(),
{
    if lines.len() == 0 {
        Seq::empty()
    } else if line_ok(lines.last()) {
        good_indices(lines.drop_last()).push(lines.len() - 1)
    } else {
        good_indices(lines.drop_last())
    }
}

/// Reads every line of the store: the events of the parsable lines in
/// order, and the positions of the corrupt lines, which are skipped and
/// reported rather than failing the read.
pub fn read_records(lines: &Vec<String>) -> (r: (Vec<ExpenseEvent>, Vec<usize>))
    ensures
        r.0@.len() == good_indices(id_views(lines@)).len(),
        r.1@.len() == bad_indices(id_views(lines@)).len(),
        r.0@.len() + r.1@.len() == lines@.len(),
        forall|m: int| 0 <= m < r.0@.len() ==> record_matches(
            #[trigger] r.0@[m],
            id_views(lines@)[good_indices(id_views(lines@))[m]],
        ),
        forall|m: int| 0 <= m < r.1@.len() ==> r.1@[m] as int == bad_indices(id_views(lines@))[m],
    {
    let ghost lv = id_views(lines@);
    let mut events: Vec<ExpenseEvent> = Vec::new();
    let mut bad: Vec<usize> = Vec::new();
    let mut i: usize = 0;
    proof {
        assert(lv.take(0) =~= Seq::<Seq<char>>::empty());
    }
    while i < lines.len()
        invariant
            i <= lines@.len(),
            lv == id_views(lines@),
            events@.len() == good_indices(lv.take(i as int)).len(),
            bad@.len() == bad_indices(lv.take(i as int)).len(),
            events@.len() + bad@.len() == i,
            forall|m: int| 0 <= m < events@.len() ==> record_matches(
                #[trigger] events@[m],
                lv[good_indices(lv.take(i as int))[m]],
            ),
            forall|m: int| 0 <= m < bad@.len()
                ==> bad@[m] as int == bad_indices(lv.take(i as int))[m],
            forall|m: int| 0 <= m < good_indices(lv.take(i as int)).len()
                ==> 0 <= #[trigger] good_indices(lv.take(i as int))[m] < i,
        decreases lines@.len() - i,
    {
        proof {
            assert(lv.take(i + 1).drop_last() =~= lv.take(i as int));
            assert(lv.take(i + 1).last() == lv[i as int]);
        }
        match parse_record(lines[i].as_str()) {
            Some(e) => {
                events.push(e);
                proof {
                    assert(good_indices(lv.take(i + 1)) =~= good_indices(lv.take(i as int)).push(
                        i as int,
                    ));
                }
            },
            None => {
                bad.push(i);
                proof {
                    assert(bad_indices(lv.take(i + 1)) =~= bad_indices(lv.take(i as int)).push(
                        i as int,
                    ));
                }
            },
        }
        i = i + 1;
    }
    proof {
        assert(lv.take(lines@.len() as int) =~= lv);
    }
    (events, bad)
}

} // verus!
