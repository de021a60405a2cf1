//! The persistence codec: a canonical text encoding of each record store,
//! with decoding proved to invert encoding.  Numbers are fixed-width decimal
//! fields, titles are length-prefixed verbatim text, so every collection has
//! exactly one encoding and a loader can recognize it byte for byte.  A file
//! that is not the encoding of a well-formed store decodes to nothing, and
//! the loader falls back to the empty store.

use vstd::prelude::*;

use crate::model::{Plan, PlanView, Schedule, Todo, TodoView};
use crate::store::{plan_store_wf, todo_store_wf, PlanStore, PlanStoreView, TodoStore, TodoStoreView};
use vstd::arithmetic::div_mod::{
    lemma_basic_div, lemma_div_basics, lemma_div_denominator, lemma_div_is_ordered,
    lemma_fundamental_div_mod,
};

verus! {

/// Ten to the `k`-th.
pub open spec fn pow10(k: nat) -> nat
    decreases k,
{
    if k == 0 {
        1
    } else {
        10 * pow10((k - 1) as nat)
    }
}

pub proof fn lemma_pow10_pos(k: nat)
    ensures
        pow10(k) >= 1,
    decreases k,
{
    if k > 0 {
        lemma_pow10_pos((k - 1) as nat);
    }
}

/// Every value of the counter type fits in twenty decimal digits.
pub proof fn lemma_u64_fits_20_digits()
    ensures
        u64::MAX < pow10(20),
{
    reveal_with_fuel(pow10, 21);
    assert(pow10(20) == 100000000000000000000);
}

/// The decimal digit character for `d` in 0..10.
pub open spec fn digit_char(d: int) -> char {
    if d == 0 {
        '0'
    } else if d == 1 {
        '1'
    } else if d == 2 {
        '2'
    } else if d == 3 {
        '3'
    } else if d == 4 {
        '4'
    } else if d == 5 {
        '5'
    } else if d == 6 {
        '6'
    } else if d == 7 {
        '7'
    } else if d == 8 {
        '8'
    } else {
        '9'
    }
}

/// The value of a decimal digit character, or 10 when `c` is no digit.
pub open spec fn digit_val(c: char) -> int {
    if c == '0' {
        0
    } else if c == '1' {
        1
    } else if c == '2' {
        2
    } else if c == '3' {
        3
    } else if c == '4' {
        4
    } else if c == '5' {
        5
    } else if c == '6' {
        6
    } else if c == '7' {
        7
    } else if c == '8' {
        8
    } else if c == '9' {
        9
    } else {
        10
    }
}

pub proof fn lemma_digit_roundtrip(d: int)
    requires
        0 <= d < 10,
    ensures
        digit_val(digit_char(d)) == d,
{
}

/// A counter value as exactly twenty decimal digits, most significant first.
pub open spec fn enc_u64(n: u64) -> Seq<char> {
    Seq::new(20, |i: int| digit_char(((n as nat) / pow10((19 - i) as nat) % 10) as int))
}

/// One accumulation step of decimal decoding.
proof fn lemma_div_pow10_step(n: nat, m: nat)
    ensures
        (n / pow10((m + 1) as nat)) * 10 + (n / pow10(m)) % 10 == n / pow10(m),
{
    lemma_pow10_pos(m);
    assert(pow10((m + 1) as nat) == pow10(m) * 10);
    lemma_div_denominator(n as int, pow10(m) as int, 10);
    let q = (n / pow10(m)) as int;
    lemma_fundamental_div_mod(q, 10);
}

/// Emits the decimal digit character for `d`.
fn digit_to_char(d: u64) -> (c: char)
    requires
        d < 10,
    ensures
        c == digit_char(d as int),
{
    match d {
        0 => '0',
        1 => '1',
        2 => '2',
        3 => '3',
        4 => '4',
        5 => '5',
        6 => '6',
        7 => '7',
        8 => '8',
        _ => '9',
    }
}

/// The value of a decimal digit character, 10 when `c` is none.
fn char_to_digit(c: char) -> (d: u64)
    ensures
        d == digit_val(c),
{
    match c {
        '0' => 0,
        '1' => 1,
        '2' => 2,
        '3' => 3,
        '4' => 4,
        '5' => 5,
        '6' => 6,
        '7' => 7,
        '8' => 8,
        '9' => 9,
        _ => 10,
    }
}

/// Ten to the `k`-th, executable, for exponents a counter digit needs.
fn pow10_exec(k: u64) -> (r: u64)
    requires
        k <= 19,
    ensures
        r == pow10(k as nat),
{
    proof {
        reveal_with_fuel(pow10, 21);
        assert(pow10(19) == 10000000000000000000);
    }
    let mut r: u64 = 1;
    let mut j: u64 = 0;
    while j < k
        invariant
            j <= k <= 19,
            r == pow10(j as nat),
        decreases k - j,
    {
        proof {
            lemma_pow10_monotone(j as nat + 1, 19);
            reveal_with_fuel(pow10, 21);
            assert(pow10(19) == 10000000000000000000);
        }
        r = r * 10;
        j = j + 1;
    }
    r
}

pub proof fn lemma_pow10_monotone(a: nat, b: nat)
    requires
        a <= b,
    ensures
        pow10(a) <= pow10(b),
    decreases b,
{
    if a < b {
        lemma_pow10_monotone(a, (b - 1) as nat);
        lemma_pow10_pos((b - 1) as nat);
    }
}

/// Appends the twenty-digit encoding of `n`.
fn encode_u64(out: &mut Vec<char>, n: u64)
    ensures
        final(out)@ == old(out)@ + enc_u64(n),
{
    let mut i: usize = 0;
    while i < 20
        invariant
            i <= 20,
            out@ == old(out)@ + enc_u64(n).take(i as int),
        decreases 20 - i,
    {
        let p = pow10_exec(19 - (i as u64));
        proof {
            lemma_pow10_pos((19 - i) as nat);
        }
        let d = (n / p) % 10;
        out.push(digit_to_char(d));
        proof {
            assert(enc_u64(n).take(i as int + 1) =~= enc_u64(n).take(i as int).push(
                enc_u64(n)[i as int],
            ));
            assert(out@ =~= old(out)@ + enc_u64(n).take(i as int + 1));
        }
        i = i + 1;
    }
    proof {
        assert(enc_u64(n).take(20) =~= enc_u64(n));
    }
}

/// Whether `pat` occurs in `v` at `pos`.
pub open spec fn matches_at(v: Seq<char>, pos: int, pat: Seq<char>) -> bool {
    &&& 0 <= pos
    &&& pos + pat.len() <= v.len()
    &&& v.subrange(pos, pos + pat.len()) == pat
}

/// A match of a concatenation is a match of each part in turn.
pub proof fn lemma_matches_split(v: Seq<char>, pos: int, a: Seq<char>, b: Seq<char>)
    requires
        matches_at(v, pos, a + b),
    ensures
        matches_at(v, pos, a),
        matches_at(v, pos + a.len(), b),
{
    let w = v.subrange(pos, pos + (a + b).len() as int);
    assert forall|i: int| 0 <= i < a.len() implies v[pos + i] == a[i] by {
        assert(w[i] == (a + b)[i]);
    }
    assert(v.subrange(pos, pos + a.len() as int) =~= a);
    assert forall|i: int| 0 <= i < b.len() implies v[pos + a.len() + i] == b[i] by {
        assert(w[a.len() + i] == (a + b)[a.len() + i]);
    }
    assert(v.subrange(pos + a.len(), pos + a.len() + b.len() as int) =~= b);
}

/// Reads twenty decimal digits.  Whenever the input carries the encoding of
/// some counter value at `pos`, that value and the position after it are
/// returned.
fn parse_u64(v: &Vec<char>, pos: usize) -> (r: Option<(u64, usize)>)
    requires
        pos <= v@.len(),
    ensures
        r matches Some(p) ==> p.1 == pos + 20 && pos + 20 <= v@.len(),
        forall|n: u64|
            matches_at(v@, pos as int, enc_u64(n)) ==> r == Some((n, (pos + 20) as usize)),
{
    proof {
        lemma_u64_fits_20_digits();
    }
    if v.len() - pos < 20 {
        return None;
    }
    let mut acc: u64 = 0;
    let mut i: usize = 0;
    proof {
        assert forall|n: u64| matches_at(v@, pos as int, enc_u64(n)) implies 0 == (n as nat)
            / pow10(20) by {
            lemma_basic_div(n as int, pow10(20) as int);
        }
    }
    while i < 20
        invariant
            i <= 20,
            pos + 20 <= v@.len(),
            v@.len() <= usize::MAX,
            forall|n: u64|
                matches_at(v@, pos as int, enc_u64(n)) ==> acc == (n as nat) / pow10(
                    (20 - i) as nat,
                ),
        decreases 20 - i,
    {
        let c = v[pos + i];
        let d = char_to_digit(c);
        proof {
            assert forall|n: u64| matches_at(v@, pos as int, enc_u64(n)) implies {
                &&& d == (n as nat) / pow10((19 - i) as nat) % 10
                &&& d < 10
                &&& acc * 10 + d == (n as nat) / pow10((19 - i) as nat)
                &&& acc * 10 + d <= u64::MAX
            } by {
                let dd = ((n as nat) / pow10((19 - i) as nat) % 10) as int;
                assert(v@.subrange(pos as int, pos + 20)[i as int] == v@[pos + i]);
                assert(c == enc_u64(n)[i as int]);
                assert(c == digit_char(dd));
                lemma_digit_roundtrip(dd);
                lemma_div_pow10_step(n as nat, (19 - i) as nat);
                lemma_pow10_pos((19 - i) as nat);
                lemma_div_is_ordered(n as int, n as int, pow10((19 - i) as nat) as int);
                lemma_pow10_monotone(1, (19 - i) as nat + 1);
                lemma_div_denominator(n as int, pow10((19 - i) as nat) as int, 1);
                lemma_div_basics(pow10((19 - i) as nat) as int);
                assert((n as nat) / pow10((19 - i) as nat) <= n as nat) by {
                    lemma_div_is_ordered_by_denominator_local(
                        n as nat,
                        pow10((19 - i) as nat),
                    );
                }
            }
        }
        if d >= 10 {
            return None;
        }
        let acc10 = match acc.checked_mul(10) {
            Some(x) => x,
            None => {
                return None;
            },
        };
        let acc2 = match acc10.checked_add(d) {
            Some(x) => x,
            None => {
                return None;
            },
        };
        acc = acc2;
        i = i + 1;
    }
    proof {
        assert forall|n: u64| matches_at(v@, pos as int, enc_u64(n)) implies acc == n by {
            assert(acc == (n as nat) / pow10(0));
            lemma_div_basics(n as int);
        }
    }
    Some((acc, pos + 20))
}

/// Dividing by a positive number yields no more than the dividend.
proof fn lemma_div_is_ordered_by_denominator_local(x: nat, d: nat)
    requires
        d >= 1,
    ensures
        x / d <= x,
{
    lemma_div_basics(x as int);
    if d > 1 {
        vstd::arithmetic::div_mod::lemma_div_is_ordered_by_denominator(x as int, 1, d as int);
    }
}


/// A boolean as one character.
pub open spec fn enc_bool(b: bool) -> Seq<char> {
    if b {
        seq!['1']
    } else {
        seq!['0']
    }
}

/// An optional counter value: a presence tag, then twenty digits.
pub open spec fn enc_opt(o: Option<u64>) -> Seq<char> {
    match o {
        Some(n) => seq!['+'] + enc_u64(n),
        None => seq!['-'] + enc_u64(0),
    }
}

/// A text field: its length, a separator, then the text verbatim.
pub open spec fn enc_str(s: Seq<char>) -> Seq<char> {
    enc_u64(s.len() as u64) + (seq![':'] + s)
}

/// A todo line up to and including the first `i` characters of its title;
/// the full line adds the terminator.
pub open spec fn enc_todo_prefix(t: TodoView, i: int) -> Seq<char> {
    enc_u64(t.id) + (seq![' '] + (enc_bool(t.completed) + (seq![' '] + (enc_u64(t.created_at)
        + (seq![' '] + (enc_u64(t.updated_at) + (seq![' '] + (enc_opt(t.origin_plan_id) + (seq![
        ' ',
    ] + (enc_u64(t.title.len() as u64) + (seq![':'] + t.title.take(i))))))))))))
}

/// One todo record, one line.
pub open spec fn enc_todo(t: TodoView) -> Seq<char> {
    enc_u64(t.id) + (seq![' '] + (enc_bool(t.completed) + (seq![' '] + (enc_u64(t.created_at)
        + (seq![' '] + (enc_u64(t.updated_at) + (seq![' '] + (enc_opt(t.origin_plan_id) + (seq![
        ' ',
    ] + (enc_str(t.title) + seq!['\n']))))))))))
}

/// The records of the collection, in stored order.
pub open spec fn enc_todo_records(items: Seq<TodoView>) -> Seq<char>
    decreases items.len(),
{
    if items.len() == 0 {
        Seq::<char>::empty()
    } else {
        enc_todo(items[0]) + enc_todo_records(items.drop_first())
    }
}

/// The whole store: the counter, the record count, then the records.
pub open spec fn enc_todo_store(s: TodoStoreView) -> Seq<char> {
    enc_u64(s.next_id) + (seq!['\n'] + (enc_u64(s.items.len() as u64) + (seq!['\n']
        + enc_todo_records(s.items))))
}

/// Whether the store's sizes fit the fixed-width fields of the encoding.
/// Every store an executable encoder observes fits.
pub open spec fn todo_fits(s: TodoStoreView) -> bool {
    &&& s.items.len() <= u64::MAX
    &&& forall|i: int| 0 <= i < s.items.len() ==> s.items[i].title.len() <= u64::MAX
}

pub proof fn lemma_enc_todo_records_snoc(items: Seq<TodoView>, x: TodoView)
    ensures
        enc_todo_records(items.push(x)) == enc_todo_records(items) + enc_todo(x),
    decreases items.len(),
{
    if items.len() == 0 {
        assert(items.push(x)[0] == x);
        assert(items.push(x).drop_first() =~= Seq::<TodoView>::empty());
        assert(enc_todo_records(items.push(x).drop_first()) =~= Seq::<char>::empty());
        assert(enc_todo_records(items) =~= Seq::<char>::empty());
        assert(enc_todo_records(items.push(x)) =~= enc_todo_records(items) + enc_todo(x));
    } else {
        assert(items.push(x)[0] == items[0]);
        assert(items.push(x).drop_first() =~= items.drop_first().push(x));
        assert(enc_todo_records(items.push(x)) == enc_todo(items[0]) + enc_todo_records(
            items.drop_first().push(x),
        ));
        lemma_enc_todo_records_snoc(items.drop_first(), x);
        assert(enc_todo_records(items.push(x)) =~= enc_todo_records(items) + enc_todo(x));
    }
}

/// Relies on str::chars and Iterator::collect from std: the characters of
/// the string, in order.
#[verifier::external_body]
fn chars_of(s: &str) -> (r: Vec<char>)
    ensures
        r@ == s@,
{
    s.chars().collect()
}

/// Relies on String implementing FromIterator over characters (std): the
/// string holding exactly those characters, in order.
#[verifier::external_body]
fn string_from_chars(v: &Vec<char>) -> (r: String)
    ensures
        r@ == v@,
{
    v.iter().collect()
}

/// Appends one character.
fn push_char(out: &mut Vec<char>, c: char)
    ensures
        final(out)@ == old(out)@ + seq![c],
{
    out.push(c);
    proof {
        assert(out@ =~= old(out)@ + seq![c]);
    }
}

/// Appends the encoding of one todo record.
fn encode_todo_record(out: &mut Vec<char>, t: &Todo)
    ensures
        final(out)@ == old(out)@ + enc_todo(t@),
        t@.title.len() <= u64::MAX,
{
    encode_u64(out, t.id);
    push_char(out, ' ');
    push_char(out, if t.completed { '1' } else { '0' });
    push_char(out, ' ');
    encode_u64(out, t.created_at);
    push_char(out, ' ');
    encode_u64(out, t.updated_at);
    push_char(out, ' ');
    match t.origin_plan_id {
        Some(p) => {
            push_char(out, '+');
            encode_u64(out, p);
        },
        None => {
            push_char(out, '-');
            encode_u64(out, 0);
        },
    }
    push_char(out, ' ');
    let tc = chars_of(t.title.as_str());
    encode_u64(out, tc.len() as u64);
    push_char(out, ':');
    proof {
        assert(t@.title.take(0) =~= Seq::<char>::empty());
        assert(out@ =~= old(out)@ + enc_todo_prefix(t@, 0));
    }
    let mut i: usize = 0;
    while i < tc.len()
        invariant
            i <= tc.len(),
            out@ == old(out)@ + enc_todo_prefix(t@, i as int),
            tc@ == t@.title,
        decreases tc.len() - i,
    {
        let c = tc[i];
        out.push(c);
        proof {
            assert(t@.title.take(i as int + 1) =~= t@.title.take(i as int).push(
                t@.title[i as int],
            ));
            assert(out@ =~= old(out)@ + enc_todo_prefix(t@, i as int + 1));
        }
        i = i + 1;
    }
    push_char(out, '\n');
    proof {
        assert(t@.title.take(t@.title.len() as int) =~= t@.title);
        assert(out@ =~= old(out)@ + enc_todo(t@));
    }
}

/// Encodes the whole todo store.
pub fn encode_todo_store(s: &TodoStore) -> (out: Vec<char>)
    ensures
        out@ == enc_todo_store(s@),
        todo_fits(s@),
{
    let mut out: Vec<char> = Vec::new();
    encode_u64(&mut out, s.next_id);
    push_char(&mut out, '\n');
    encode_u64(&mut out, s.items.len() as u64);
    push_char(&mut out, '\n');
    let ghost header = enc_u64(s@.next_id) + (seq!['\n'] + (enc_u64(s@.items.len() as u64) + seq![
        '\n',
    ]));
    proof {
        assert(out@ =~= header);
    }
    let mut i: usize = 0;
    while i < s.items.len()
        invariant
            i <= s.items.len(),
            header == enc_u64(s@.next_id) + (seq!['\n'] + (enc_u64(s@.items.len() as u64) + seq![
                '\n',
            ])),
            out@ == header + enc_todo_records(s@.items.take(i as int)),
            forall|k: int| 0 <= k < i ==> s@.items[k].title.len() <= u64::MAX,
        decreases s.items.len() - i,
    {
        encode_todo_record(&mut out, &s.items[i]);
        proof {
            assert(s@.items.take(i as int + 1) =~= s@.items.take(i as int).push(s@.items[i as int]));
            lemma_enc_todo_records_snoc(s@.items.take(i as int), s@.items[i as int]);
            assert(out@ =~= header + enc_todo_records(s@.items.take(i as int + 1)));
        }
        i = i + 1;
    }
    proof {
        assert(s@.items.take(s.items@.len() as int) =~= s@.items);
        assert(out@ =~= enc_todo_store(s@));
    }
    out
}


/// Reads one expected character.
fn expect_char(v: &Vec<char>, pos: usize, c: char) -> (r: Option<usize>)
    requires
        pos <= v@.len(),
    ensures
        r matches Some(p) ==> p == pos + 1 && pos + 1 <= v@.len(),
        matches_at(v@, pos as int, seq![c]) ==> r == Some((pos + 1) as usize),
{
    proof {
        if matches_at(v@, pos as int, seq![c]) {
            assert(v@.subrange(pos as int, pos as int + 1)[0] == v@[pos as int]);
        }
    }
    if pos < v.len() && v[pos] == c {
        Some(pos + 1)
    } else {
        None
    }
}

/// Reads a boolean field.
fn parse_bool(v: &Vec<char>, pos: usize) -> (r: Option<(bool, usize)>)
    requires
        pos <= v@.len(),
    ensures
        r matches Some(p) ==> p.1 == pos + 1 && pos + 1 <= v@.len(),
        forall|b: bool|
            matches_at(v@, pos as int, enc_bool(b)) ==> r == Some((b, (pos + 1) as usize)),
{
    proof {
        assert forall|b: bool| matches_at(v@, pos as int, enc_bool(b)) implies v@[pos as int] == (
        if b {
            '1'
        } else {
            '0'
        }) by {
            assert(v@.subrange(pos as int, pos as int + 1)[0] == v@[pos as int]);
        }
    }
    if pos < v.len() {
        let c = v[pos];
        if c == '0' {
            Some((false, pos + 1))
        } else if c == '1' {
            Some((true, pos + 1))
        } else {
            None
        }
    } else {
        None
    }
}

/// Reads an optional counter value.
fn parse_opt(v: &Vec<char>, pos: usize) -> (r: Option<(Option<u64>, usize)>)
    requires
        pos <= v@.len(),
    ensures
        r matches Some(p) ==> p.1 == pos + 21 && pos + 21 <= v@.len(),
        forall|o: Option<u64>|
            matches_at(v@, pos as int, enc_opt(o)) ==> r == Some((o, (pos + 21) as usize)),
{
    proof {
        assert forall|o: Option<u64>| matches_at(v@, pos as int, enc_opt(o)) implies {
            &&& v@[pos as int] == (if o is Some {
                '+'
            } else {
                '-'
            })
            &&& matches_at(
                v@,
                pos as int + 1,
                enc_u64(
                    match o {
                        Some(n) => n,
                        None => 0,
                    },
                ),
            )
        } by {
            match o {
                Some(n) => {
                    lemma_matches_split(v@, pos as int, seq!['+'], enc_u64(n));
                    assert(v@.subrange(pos as int, pos as int + 1)[0] == v@[pos as int]);
                },
                None => {
                    lemma_matches_split(v@, pos as int, seq!['-'], enc_u64(0));
                    assert(v@.subrange(pos as int, pos as int + 1)[0] == v@[pos as int]);
                },
            }
        }
    }
    if pos >= v.len() {
        return None;
    }
    let c = v[pos];
    if c == '+' {
        match parse_u64(v, pos + 1) {
            Some((n, p2)) => Some((Some(n), p2)),
            None => None,
        }
    } else if c == '-' {
        match parse_u64(v, pos + 1) {
            Some((_n, p2)) => Some((None, p2)),
            None => None,
        }
    } else {
        None
    }
}

/// Reads a length-prefixed text field.
#[verifier::rlimit(50)]
fn parse_str(v: &Vec<char>, pos: usize) -> (r: Option<(Vec<char>, usize)>)
    requires
        pos <= v@.len(),
    ensures
        r matches Some(p) ==> p.1 <= v@.len() && p.1 == pos + 21 + p.0@.len(),
        forall|s: Seq<char>|
            s.len() <= u64::MAX && matches_at(v@, pos as int, enc_str(s)) ==> {
                &&& r matches Some(p)
                &&& p.0@ == s
                &&& p.1 == pos + enc_str(s).len()
            },
{
    proof {
        assert forall|s: Seq<char>|
            s.len() <= u64::MAX && matches_at(v@, pos as int, enc_str(s)) implies {
            &&& matches_at(v@, pos as int, enc_u64(s.len() as u64))
            &&& matches_at(v@, pos as int + 20, seq![':'])
            &&& matches_at(v@, pos as int + 21, s)
        } by {
            lemma_matches_split(v@, pos as int, enc_u64(s.len() as u64), seq![':'] + s);
            lemma_matches_split(v@, pos as int + 20, seq![':'], s);
        }
    }
    let (len, p1) = match parse_u64(v, pos) {
        Some(x) => x,
        None => {
            return None;
        },
    };
    let p2 = match expect_char(v, p1, ':') {
        Some(x) => x,
        None => {
            return None;
        },
    };
    if len > (v.len() - p2) as u64 {
        return None;
    }
    let l = len as usize;
    let mut chars: Vec<char> = Vec::new();
    let mut i: usize = 0;
    while i < l
        invariant
            i <= l,
            p2 + l <= v@.len(),
            v@.len() <= usize::MAX,
            chars@ == v@.subrange(p2 as int, p2 as int + i as int),
        decreases l - i,
    {
        chars.push(v[p2 + i]);
        proof {
            assert(chars@ =~= v@.subrange(p2 as int, p2 as int + i as int + 1));
        }
        i = i + 1;
    }
    proof {
        assert forall|s: Seq<char>|
            s.len() <= u64::MAX && matches_at(v@, pos as int, enc_str(s)) implies chars@ == s by {
            assert(v@.subrange(pos as int + 21, pos as int + 21 + s.len() as int) =~= chars@);
        }
    }
    Some((chars, p2 + l))
}

/// Splits a matched todo line into its fields.
#[verifier::rlimit(100)]
proof fn lemma_todo_fields_match(v: Seq<char>, pos: int, t: TodoView)
    requires
        matches_at(v, pos, enc_todo(t)),
    ensures
        matches_at(v, pos, enc_u64(t.id)),
        matches_at(v, pos + 20, seq![' ']),
        matches_at(v, pos + 21, enc_bool(t.completed)),
        matches_at(v, pos + 22, seq![' ']),
        matches_at(v, pos + 23, enc_u64(t.created_at)),
        matches_at(v, pos + 43, seq![' ']),
        matches_at(v, pos + 44, enc_u64(t.updated_at)),
        matches_at(v, pos + 64, seq![' ']),
        matches_at(v, pos + 65, enc_opt(t.origin_plan_id)),
        matches_at(v, pos + 86, seq![' ']),
        matches_at(v, pos + 87, enc_str(t.title)),
        matches_at(v, pos + 87 + enc_str(t.title).len(), seq!['\n']),
        enc_todo(t).len() == 88 + enc_str(t.title).len(),
{
    let e = enc_todo(t);
    assert(e =~= enc_u64(t.id) + e.skip(20));
    lemma_matches_split(v, pos, enc_u64(t.id), e.skip(20));
    assert(e.skip(20) =~= seq![' '] + e.skip(21));
    lemma_matches_split(v, pos + 20, seq![' '], e.skip(21));
    assert(e.skip(21) =~= enc_bool(t.completed) + e.skip(22));
    lemma_matches_split(v, pos + 21, enc_bool(t.completed), e.skip(22));
    assert(e.skip(22) =~= seq![' '] + e.skip(23));
    lemma_matches_split(v, pos + 22, seq![' '], e.skip(23));
    assert(e.skip(23) =~= enc_u64(t.created_at) + e.skip(43));
    lemma_matches_split(v, pos + 23, enc_u64(t.created_at), e.skip(43));
    assert(e.skip(43) =~= seq![' '] + e.skip(44));
    lemma_matches_split(v, pos + 43, seq![' '], e.skip(44));
    assert(e.skip(44) =~= enc_u64(t.updated_at) + e.skip(64));
    lemma_matches_split(v, pos + 44, enc_u64(t.updated_at), e.skip(64));
    assert(e.skip(64) =~= seq![' '] + e.skip(65));
    lemma_matches_split(v, pos + 64, seq![' '], e.skip(65));
    assert(e.skip(65) =~= enc_opt(t.origin_plan_id) + e.skip(86));
    lemma_matches_split(v, pos + 65, enc_opt(t.origin_plan_id), e.skip(86));
    assert(e.skip(86) =~= seq![' '] + e.skip(87));
    lemma_matches_split(v, pos + 86, seq![' '], e.skip(87));
    assert(e.skip(87) =~= enc_str(t.title) + seq!['\n']);
    lemma_matches_split(v, pos + 87, enc_str(t.title), seq!['\n']);
}

/// Reads one todo line.  Whenever the input carries the encoding of some
/// record at `pos`, that record and the position after its line are returned.
fn parse_todo(v: &Vec<char>, pos: usize) -> (r: Option<(Todo, usize)>)
    requires
        pos <= v@.len(),
    ensures
        r matches Some(p) ==> p.1 <= v@.len() && p.1 > pos,
        forall|t: TodoView|
            t.title.len() <= u64::MAX && matches_at(v@, pos as int, enc_todo(t)) ==> {
                &&& r matches Some(p)
                &&& p.0@ == t
                &&& p.1 == pos + enc_todo(t).len()
            },
{
    proof {
        assert forall|t: TodoView|
            t.title.len() <= u64::MAX && matches_at(v@, pos as int, enc_todo(t)) implies {
            &&& matches_at(v@, pos as int, enc_u64(t.id))
            &&& matches_at(v@, pos as int + 20, seq![' '])
            &&& matches_at(v@, pos as int + 21, enc_bool(t.completed))
            &&& matches_at(v@, pos as int + 22, seq![' '])
            &&& matches_at(v@, pos as int + 23, enc_u64(t.created_at))
            &&& matches_at(v@, pos as int + 43, seq![' '])
            &&& matches_at(v@, pos as int + 44, enc_u64(t.updated_at))
            &&& matches_at(v@, pos as int + 64, seq![' '])
            &&& matches_at(v@, pos as int + 65, enc_opt(t.origin_plan_id))
            &&& matches_at(v@, pos as int + 86, seq![' '])
            &&& matches_at(v@, pos as int + 87, enc_str(t.title))
            &&& matches_at(v@, pos as int + 87 + enc_str(t.title).len(), seq!['\n'])
            &&& enc_todo(t).len() == 88 + enc_str(t.title).len()
        } by {
            lemma_todo_fields_match(v@, pos as int, t);
        }
    }
    let (id, p1) = match parse_u64(v, pos) {
        Some(x) => x,
        None => {
            return None;
        },
    };
    let p2 = match expect_char(v, p1, ' ') {
        Some(x) => x,
        None => {
            return None;
        },
    };
    let (completed, p3) = match parse_bool(v, p2) {
        Some(x) => x,
        None => {
            return None;
        },
    };
    let p4 = match expect_char(v, p3, ' ') {
        Some(x) => x,
        None => {
            return None;
        },
    };
    let (created_at, p5) = match parse_u64(v, p4) {
        Some(x) => x,
        None => {
            return None;
        },
    };
    let p6 = match expect_char(v, p5, ' ') {
        Some(x) => x,
        None => {
            return None;
        },
    };
    let (updated_at, p7) = match parse_u64(v, p6) {
        Some(x) => x,
        None => {
            return None;
        },
    };
    let p8 = match expect_char(v, p7, ' ') {
        Some(x) => x,
        None => {
            return None;
        },
    };
    let (origin_plan_id, p9) = match parse_opt(v, p8) {
        Some(x) => x,
        None => {
            return None;
        },
    };
    let p10 = match expect_char(v, p9, ' ') {
        Some(x) => x,
        None => {
            return None;
        },
    };
    let (title_chars, p11) = match parse_str(v, p10) {
        Some(x) => x,
        None => {
            return None;
        },
    };
    let p12 = match expect_char(v, p11, '\n') {
        Some(x) => x,
        None => {
            return None;
        },
    };
    let title = string_from_chars(&title_chars);
    let todo = Todo { id, title, completed, created_at, updated_at, origin_plan_id };
    proof {
        assert forall|t: TodoView|
            t.title.len() <= u64::MAX && matches_at(v@, pos as int, enc_todo(t)) implies todo@ == t
            && p12 == pos + enc_todo(t).len() by {
            assert(todo@ =~= t);
        }
    }
    Some((todo, p12))
}

/// Decides well-formedness of a candidate store.
fn check_todo_wf(st: &TodoStore) -> (r: bool)
    ensures
        r == todo_store_wf(st@),
{
    let mut i: usize = 0;
    while i < st.items.len()
        invariant
            i <= st.items.len(),
            forall|a: int, b: int|
                0 <= a < b < st@.items.len() && a < i ==> st@.items[a].id != st@.items[b].id,
            forall|a: int|
                0 <= a < i ==> st@.items[a].id < st@.next_id && st@.items[a].title.len() > 0,
        decreases st.items.len() - i,
    {
        if st.items[i].id >= st.next_id {
            proof {
                assert(st@.items[i as int].id >= st@.next_id);
            }
            return false;
        }
        if st.items[i].title.as_str().is_empty() {
            proof {
                assert(st@.items[i as int].title.len() == 0);
            }
            return false;
        }
        let mut j: usize = i + 1;
        while j < st.items.len()
            invariant
                i < j <= st.items.len(),
                i < st.items.len(),
                forall|b: int| i < b < j ==> st@.items[i as int].id != st@.items[b].id,
            decreases st.items.len() - j,
        {
            if st.items[i].id == st.items[j].id {
                proof {
                    assert(st@.items[i as int].id == st@.items[j as int].id);
                }
                return false;
            }
            j = j + 1;
        }
        i = i + 1;
    }
    true
}

/// Character-for-character equality of two buffers.
fn eq_chars(a: &Vec<char>, b: &Vec<char>) -> (r: bool)
    ensures
        r == (a@ == b@),
{
    if a.len() != b.len() {
        proof {
            if a@ == b@ {
                assert(a@.len() == b@.len());
            }
        }
        return false;
    }
    let mut i: usize = 0;
    while i < a.len()
        invariant
            i <= a.len(),
            a@.len() == b@.len(),
            forall|k: int| 0 <= k < i ==> a@[k] == b@[k],
        decreases a.len() - i,
    {
        if a[i] != b[i] {
            proof {
                if a@ == b@ {
                    assert(a@[i as int] == b@[i as int]);
                }
            }
            return false;
        }
        i = i + 1;
    }
    proof {
        assert(a@ =~= b@);
    }
    true
}

/// Splits a matched store encoding into its header fields and record block.
proof fn lemma_todo_store_fields_match(v: Seq<char>, s: TodoStoreView)
    requires
        v == enc_todo_store(s),
    ensures
        matches_at(v, 0, enc_u64(s.next_id)),
        matches_at(v, 20, seq!['\n']),
        matches_at(v, 21, enc_u64(s.items.len() as u64)),
        matches_at(v, 41, seq!['\n']),
        matches_at(v, 42, enc_todo_records(s.items)),
        v.len() == 42 + enc_todo_records(s.items).len(),
{
    assert(v.subrange(0, v.len() as int) =~= v);
    assert(v =~= enc_u64(s.next_id) + v.skip(20));
    lemma_matches_split(v, 0, enc_u64(s.next_id), v.skip(20));
    assert(v.skip(20) =~= seq!['\n'] + v.skip(21));
    lemma_matches_split(v, 20, seq!['\n'], v.skip(21));
    assert(v.skip(21) =~= enc_u64(s.items.len() as u64) + v.skip(41));
    lemma_matches_split(v, 21, enc_u64(s.items.len() as u64), v.skip(41));
    assert(v.skip(41) =~= seq!['\n'] + v.skip(42));
    lemma_matches_split(v, 41, seq!['\n'], v.skip(42));
    assert(v.skip(42) =~= enc_todo_records(s.items));
}

/// One record of the block, then the rest of the block.
proof fn lemma_todo_records_step(v: Seq<char>, pos: int, items: Seq<TodoView>, k: int)
    requires
        0 <= k < items.len(),
        matches_at(v, pos, enc_todo_records(items.skip(k))),
    ensures
        matches_at(v, pos, enc_todo(items[k])),
        matches_at(v, pos + enc_todo(items[k]).len(), enc_todo_records(items.skip(k + 1))),
        enc_todo_records(items.skip(k)).len() == enc_todo(items[k]).len() + enc_todo_records(
            items.skip(k + 1),
        ).len(),
{
    assert(items.skip(k)[0] == items[k]);
    assert(items.skip(k).drop_first() =~= items.skip(k + 1));
    assert(enc_todo_records(items.skip(k)) == enc_todo(items[k]) + enc_todo_records(
        items.skip(k + 1),
    ));
    lemma_matches_split(v, pos, enc_todo(items[k]), enc_todo_records(items.skip(k + 1)));
}

/// Whether `v` is the canonical encoding of the well-formed store `s`.
pub open spec fn is_todo_encoding(v: Seq<char>, s: TodoStoreView) -> bool {
    &&& todo_store_wf(s)
    &&& todo_fits(s)
    &&& v == enc_todo_store(s)
}

/// Recognizes exactly the canonical encodings: the decoder returns a store
/// precisely when the input is the encoding of a well-formed store, and then
/// it returns that store — so decoding inverts encoding, losslessly and
/// order-preservingly.
pub fn decode_todo_store(v: &Vec<char>) -> (r: Option<TodoStore>)
    ensures
        r matches Some(st) ==> is_todo_encoding(v@, st@),
        forall|s: TodoStoreView|
            is_todo_encoding(v@, s) ==> (r matches Some(st) && st@ == s),
{
    proof {
        assert forall|s: TodoStoreView| is_todo_encoding(v@, s) implies {
            &&& matches_at(v@, 0, enc_u64(s.next_id))
            &&& matches_at(v@, 20, seq!['\n'])
            &&& matches_at(v@, 21, enc_u64(s.items.len() as u64))
            &&& matches_at(v@, 41, seq!['\n'])
            &&& matches_at(v@, 42, enc_todo_records(s.items))
            &&& v@.len() == 42 + enc_todo_records(s.items).len()
        } by {
            lemma_todo_store_fields_match(v@, s);
        }
    }
    let (next_id, q1) = match parse_u64(v, 0) {
        Some(x) => x,
        None => {
            return None;
        },
    };
    let q2 = match expect_char(v, q1, '\n') {
        Some(x) => x,
        None => {
            return None;
        },
    };
    let (count, q3) = match parse_u64(v, q2) {
        Some(x) => x,
        None => {
            return None;
        },
    };
    let q4 = match expect_char(v, q3, '\n') {
        Some(x) => x,
        None => {
            return None;
        },
    };
    let mut items: Vec<Todo> = Vec::new();
    let mut pos: usize = q4;
    let mut k: u64 = 0;
    proof {
        assert(items@.map_values(|t: Todo| t@) =~= Seq::<TodoView>::empty());
        assert forall|s: TodoStoreView| is_todo_encoding(v@, s) implies {
            &&& items@.map_values(|t: Todo| t@) == s.items.take(0)
            &&& matches_at(v@, pos as int, enc_todo_records(s.items.skip(0)))
            &&& pos + enc_todo_records(s.items.skip(0)).len() == v@.len()
        } by {
            assert(s.items.take(0) =~= Seq::<TodoView>::empty());
            assert(s.items.skip(0) =~= s.items);
        }
    }
    while k < count
        invariant
            pos <= v@.len(),
            k <= count,
            items@.len() == k,
            forall|s: TodoStoreView|
                is_todo_encoding(v@, s) ==> {
                    &&& next_id == s.next_id
                    &&& count as nat == s.items.len()
                    &&& k as nat <= s.items.len()
                    &&& items@.map_values(|t: Todo| t@) == s.items.take(k as int)
                    &&& matches_at(v@, pos as int, enc_todo_records(s.items.skip(k as int)))
                    &&& pos + enc_todo_records(s.items.skip(k as int)).len() == v@.len()
                },
        decreases count - k,
    {
        proof {
            assert forall|s: TodoStoreView| is_todo_encoding(v@, s) implies {
                &&& matches_at(v@, pos as int, enc_todo(s.items[k as int]))
                &&& s.items[k as int].title.len() <= u64::MAX
                &&& pos + enc_todo(s.items[k as int]).len() + enc_todo_records(
                    s.items.skip(k as int + 1),
                ).len() == v@.len()
            } by {
                lemma_todo_records_step(v@, pos as int, s.items, k as int);
            }
        }
        let (t, p2) = match parse_todo(v, pos) {
            Some(x) => x,
            None => {
                return None;
            },
        };
        items.push(t);
        proof {
            assert forall|s: TodoStoreView| is_todo_encoding(v@, s) implies {
                &&& items@.map_values(|tt: Todo| tt@) == s.items.take(k as int + 1)
                &&& matches_at(v@, p2 as int, enc_todo_records(s.items.skip(k as int + 1)))
                &&& p2 + enc_todo_records(s.items.skip(k as int + 1)).len() == v@.len()
            } by {
                lemma_todo_records_step(v@, pos as int, s.items, k as int);
                assert(items@.map_values(|tt: Todo| tt@) =~= s.items.take(k as int + 1));
            }
        }
        pos = p2;
        k = k + 1;
    }
    if pos != v.len() {
        proof {
            assert forall|s: TodoStoreView| is_todo_encoding(v@, s) implies false by {
                assert(s.items.skip(k as int) =~= Seq::<TodoView>::empty());
                assert(enc_todo_records(s.items.skip(k as int)) =~= Seq::<char>::empty());
            }
        }
        return None;
    }
    let st = TodoStore { next_id, items };
    proof {
        assert forall|s: TodoStoreView| is_todo_encoding(v@, s) implies st@ == s by {
            assert(s.items.take(k as int) =~= s.items);
            assert(st@ =~= s);
        }
    }
    if !check_todo_wf(&st) {
        return None;
    }
    let out2 = encode_todo_store(&st);
    if !eq_chars(&out2, v) {
        return None;
    }
    Some(st)
}

/// Loads a todo collection, falling soft: the encoding of a well-formed
/// store yields exactly that store, and anything else — a truncated file, a
/// corrupt file — yields the empty store rather than an error.
pub fn load_todo_store(v: &Vec<char>) -> (r: TodoStore)
    ensures
        todo_store_wf(r@),
        forall|s: TodoStoreView| is_todo_encoding(v@, s) ==> r@ == s,
        !(exists|s: TodoStoreView| is_todo_encoding(v@, s)) ==> r@ == (TodoStoreView {
            next_id: 0,
            items: Seq::<TodoView>::empty(),
        }),
{
    match decode_todo_store(v) {
        Some(st) => {
            proof {
                assert(is_todo_encoding(v@, st@));
            }
            st
        },
        None => TodoStore::new(),
    }
}

/// The todo store as durable text.
pub fn todos_to_string(s: &TodoStore) -> (r: String)
    ensures
        r@ == enc_todo_store(s@),
        todo_fits(s@),
{
    let out = encode_todo_store(s);
    string_from_chars(&out)
}

/// Loads a todo collection from durable text; see `load_todo_store`.
pub fn todos_from_str(text: &str) -> (r: TodoStore)
    ensures
        todo_store_wf(r@),
        forall|s: TodoStoreView| is_todo_encoding(text@, s) ==> r@ == s,
        !(exists|s: TodoStoreView| is_todo_encoding(text@, s)) ==> r@ == (TodoStoreView {
            next_id: 0,
            items: Seq::<TodoView>::empty(),
        }),
{
    let v = chars_of(text);
    load_todo_store(&v)
}


/// A recurrence rule: a tag, then the interval field (zero for the named
/// rules).
pub open spec fn enc_sched(sc: Schedule) -> Seq<char> {
    match sc {
        Schedule::Daily => seq!['D'] + enc_u64(0),
        Schedule::Weekly => seq!['W'] + enc_u64(0),
        Schedule::Interval(n) => seq!['I'] + enc_u64(n),
    }
}

/// One plan record, one line.
pub open spec fn enc_plan(p: PlanView) -> Seq<char> {
    enc_u64(p.id) + (seq![' '] + (enc_sched(p.schedule) + (seq![' '] + (enc_u64(
        p.last_refreshed_at,
    ) + (seq![' '] + (enc_u64(p.created_at) + (seq![' '] + (enc_u64(p.updated_at) + (seq![' '] + (
    enc_str(p.title) + (seq![' '] + (enc_str(p.description) + seq!['\n']))))))))))))
}

/// The plans of the collection, in stored order.
pub open spec fn enc_plan_records(items: Seq<PlanView>) -> Seq<char>
    decreases items.len(),
{
    if items.len() == 0 {
        Seq::<char>::empty()
    } else {
        enc_plan(items[0]) + enc_plan_records(items.drop_first())
    }
}

/// The whole plan store: the counter, the record count, then the records.
pub open spec fn enc_plan_store(s: PlanStoreView) -> Seq<char> {
    enc_u64(s.next_id) + (seq!['\n'] + (enc_u64(s.items.len() as u64) + (seq!['\n']
        + enc_plan_records(s.items))))
}

/// Whether the plan store's sizes fit the fixed-width fields.
pub open spec fn plan_fits(s: PlanStoreView) -> bool {
    &&& s.items.len() <= u64::MAX
    &&& forall|i: int|
        0 <= i < s.items.len() ==> s.items[i].title.len() <= u64::MAX
            && s.items[i].description.len() <= u64::MAX
}

pub proof fn lemma_enc_plan_records_snoc(items: Seq<PlanView>, x: PlanView)
    ensures
        enc_plan_records(items.push(x)) == enc_plan_records(items) + enc_plan(x),
    decreases items.len(),
{
    if items.len() == 0 {
        assert(items.push(x)[0] == x);
        assert(items.push(x).drop_first() =~= Seq::<PlanView>::empty());
        assert(enc_plan_records(items.push(x).drop_first()) =~= Seq::<char>::empty());
        assert(enc_plan_records(items) =~= Seq::<char>::empty());
        assert(enc_plan_records(items.push(x)) =~= enc_plan_records(items) + enc_plan(x));
    } else {
        assert(items.push(x)[0] == items[0]);
        assert(items.push(x).drop_first() =~= items.drop_first().push(x));
        assert(enc_plan_records(items.push(x)) == enc_plan(items[0]) + enc_plan_records(
            items.drop_first().push(x),
        ));
        lemma_enc_plan_records_snoc(items.drop_first(), x);
        assert(enc_plan_records(items.push(x)) =~= enc_plan_records(items) + enc_plan(x));
    }
}

/// Appends a length-prefixed text field.
fn encode_str_field(out: &mut Vec<char>, s: &String)
    ensures
        final(out)@ == old(out)@ + enc_str(s@),
        s@.len() <= u64::MAX,
{
    let tc = chars_of(s.as_str());
    encode_u64(out, tc.len() as u64);
    push_char(out, ':');
    proof {
        assert(s@.take(0) =~= Seq::<char>::empty());
        assert(out@ =~= old(out)@ + (enc_u64(s@.len() as u64) + (seq![':'] + s@.take(0))));
    }
    let mut i: usize = 0;
    while i < tc.len()
        invariant
            i <= tc.len(),
            tc@ == s@,
            out@ == old(out)@ + (enc_u64(s@.len() as u64) + (seq![':'] + s@.take(i as int))),
        decreases tc.len() - i,
    {
        let c = tc[i];
        out.push(c);
        proof {
            assert(s@.take(i as int + 1) =~= s@.take(i as int).push(s@[i as int]));
            assert(out@ =~= old(out)@ + (enc_u64(s@.len() as u64) + (seq![':'] + s@.take(
                i as int + 1,
            ))));
        }
        i = i + 1;
    }
    proof {
        assert(s@.take(s@.len() as int) =~= s@);
    }
}

/// Appends the encoding of one plan record.
fn encode_plan_record(out: &mut Vec<char>, p: &Plan)
    ensures
        final(out)@ == old(out)@ + enc_plan(p@),
        p@.title.len() <= u64::MAX,
        p@.description.len() <= u64::MAX,
{
    encode_u64(out, p.id);
    push_char(out, ' ');
    match p.schedule {
        Schedule::Daily => {
            push_char(out, 'D');
            encode_u64(out, 0);
        },
        Schedule::Weekly => {
            push_char(out, 'W');
            encode_u64(out, 0);
        },
        Schedule::Interval(n) => {
            push_char(out, 'I');
            encode_u64(out, n);
        },
    }
    push_char(out, ' ');
    encode_u64(out, p.last_refreshed_at);
    push_char(out, ' ');
    encode_u64(out, p.created_at);
    push_char(out, ' ');
    encode_u64(out, p.updated_at);
    push_char(out, ' ');
    encode_str_field(out, &p.title);
    push_char(out, ' ');
    encode_str_field(out, &p.description);
    push_char(out, '\n');
    proof {
        assert(out@ =~= old(out)@ + enc_plan(p@));
    }
}

/// Encodes the whole plan store.
pub fn encode_plan_store(s: &PlanStore) -> (out: Vec<char>)
    ensures
        out@ == enc_plan_store(s@),
        plan_fits(s@),
{
    let mut out: Vec<char> = Vec::new();
    encode_u64(&mut out, s.next_id);
    push_char(&mut out, '\n');
    encode_u64(&mut out, s.items.len() as u64);
    push_char(&mut out, '\n');
    let ghost header = enc_u64(s@.next_id) + (seq!['\n'] + (enc_u64(s@.items.len() as u64) + seq![
        '\n',
    ]));
    proof {
        assert(out@ =~= header);
    }
    let mut i: usize = 0;
    while i < s.items.len()
        invariant
            i <= s.items.len(),
            header == enc_u64(s@.next_id) + (seq!['\n'] + (enc_u64(s@.items.len() as u64) + seq![
                '\n',
            ])),
            out@ == header + enc_plan_records(s@.items.take(i as int)),
            forall|k: int|
                0 <= k < i ==> s@.items[k].title.len() <= u64::MAX && s@.items[k].description.len()
                    <= u64::MAX,
        decreases s.items.len() - i,
    {
        encode_plan_record(&mut out, &s.items[i]);
        proof {
            assert(s@.items.take(i as int + 1) =~= s@.items.take(i as int).push(
                s@.items[i as int],
            ));
            lemma_enc_plan_records_snoc(s@.items.take(i as int), s@.items[i as int]);
            assert(out@ =~= header + enc_plan_records(s@.items.take(i as int + 1)));
        }
        i = i + 1;
    }
    proof {
        assert(s@.items.take(s.items@.len() as int) =~= s@.items);
        assert(out@ =~= enc_plan_store(s@));
    }
    out
}

/// Reads a recurrence rule.
fn parse_sched(v: &Vec<char>, pos: usize) -> (r: Option<(Schedule, usize)>)
    requires
        pos <= v@.len(),
    ensures
        r matches Some(p) ==> p.1 == pos + 21 && pos + 21 <= v@.len(),
        forall|sc: Schedule|
            matches_at(v@, pos as int, enc_sched(sc)) ==> r == Some((sc, (pos + 21) as usize)),
{
    proof {
        assert forall|sc: Schedule| matches_at(v@, pos as int, enc_sched(sc)) implies {
            &&& v@[pos as int] == (match sc {
                Schedule::Daily => 'D',
                Schedule::Weekly => 'W',
                Schedule::Interval(n) => 'I',
            })
            &&& matches_at(
                v@,
                pos as int + 1,
                enc_u64(
                    match sc {
                        Schedule::Interval(n) => n,
                        _ => 0,
                    },
                ),
            )
        } by {
            match sc {
                Schedule::Daily => {
                    lemma_matches_split(v@, pos as int, seq!['D'], enc_u64(0));
                },
                Schedule::Weekly => {
                    lemma_matches_split(v@, pos as int, seq!['W'], enc_u64(0));
                },
                Schedule::Interval(n) => {
                    lemma_matches_split(v@, pos as int, seq!['I'], enc_u64(n));
                },
            }
            assert(v@.subrange(pos as int, pos as int + 1)[0] == v@[pos as int]);
        }
    }
    if pos >= v.len() {
        return None;
    }
    let c = v[pos];
    if c == 'D' {
        match parse_u64(v, pos + 1) {
            Some((_n, p2)) => Some((Schedule::Daily, p2)),
            None => None,
        }
    } else if c == 'W' {
        match parse_u64(v, pos + 1) {
            Some((_n, p2)) => Some((Schedule::Weekly, p2)),
            None => None,
        }
    } else if c == 'I' {
        match parse_u64(v, pos + 1) {
            Some((n, p2)) => Some((Schedule::Interval(n), p2)),
            None => None,
        }
    } else {
        None
    }
}

/// Splits a matched plan line into its fields.
#[verifier::rlimit(100)]
proof fn lemma_plan_fields_match(v: Seq<char>, pos: int, p: PlanView)
    requires
        matches_at(v, pos, enc_plan(p)),
    ensures
        matches_at(v, pos, enc_u64(p.id)),
        matches_at(v, pos + 20, seq![' ']),
        matches_at(v, pos + 21, enc_sched(p.schedule)),
        matches_at(v, pos + 42, seq![' ']),
        matches_at(v, pos + 43, enc_u64(p.last_refreshed_at)),
        matches_at(v, pos + 63, seq![' ']),
        matches_at(v, pos + 64, enc_u64(p.created_at)),
        matches_at(v, pos + 84, seq![' ']),
        matches_at(v, pos + 85, enc_u64(p.updated_at)),
        matches_at(v, pos + 105, seq![' ']),
        matches_at(v, pos + 106, enc_str(p.title)),
        matches_at(v, pos + 106 + enc_str(p.title).len(), seq![' ']),
        matches_at(v, pos + 107 + enc_str(p.title).len(), enc_str(p.description)),
        matches_at(
            v,
            pos + 107 + enc_str(p.title).len() + enc_str(p.description).len(),
            seq!['\n'],
        ),
        enc_plan(p).len() == 108 + enc_str(p.title).len() + enc_str(p.description).len(),
{
    let e = enc_plan(p);
    assert(e =~= enc_u64(p.id) + e.skip(20));
    lemma_matches_split(v, pos, enc_u64(p.id), e.skip(20));
    assert(e.skip(20) =~= seq![' '] + e.skip(21));
    lemma_matches_split(v, pos + 20, seq![' '], e.skip(21));
    assert(e.skip(21) =~= enc_sched(p.schedule) + e.skip(42));
    lemma_matches_split(v, pos + 21, enc_sched(p.schedule), e.skip(42));
    assert(e.skip(42) =~= seq![' '] + e.skip(43));
    lemma_matches_split(v, pos + 42, seq![' '], e.skip(43));
    assert(e.skip(43) =~= enc_u64(p.last_refreshed_at) + e.skip(63));
    lemma_matches_split(v, pos + 43, enc_u64(p.last_refreshed_at), e.skip(63));
    assert(e.skip(63) =~= seq![' '] + e.skip(64));
    lemma_matches_split(v, pos + 63, seq![' '], e.skip(64));
    assert(e.skip(64) =~= enc_u64(p.created_at) + e.skip(84));
    lemma_matches_split(v, pos + 64, enc_u64(p.created_at), e.skip(84));
    assert(e.skip(84) =~= seq![' '] + e.skip(85));
    lemma_matches_split(v, pos + 84, seq![' '], e.skip(85));
    assert(e.skip(85) =~= enc_u64(p.updated_at) + e.skip(105));
    lemma_matches_split(v, pos + 85, enc_u64(p.updated_at), e.skip(105));
    assert(e.skip(105) =~= seq![' '] + e.skip(106));
    lemma_matches_split(v, pos + 105, seq![' '], e.skip(106));
    let a = 106 + enc_str(p.title).len() as int;
    assert(e.skip(106) =~= enc_str(p.title) + e.skip(a));
    lemma_matches_split(v, pos + 106, enc_str(p.title), e.skip(a));
    assert(e.skip(a) =~= seq![' '] + e.skip(a + 1));
    lemma_matches_split(v, pos + a, seq![' '], e.skip(a + 1));
    assert(e.skip(a + 1) =~= enc_str(p.description) + seq!['\n']);
    lemma_matches_split(v, pos + a + 1, enc_str(p.description), seq!['\n']);
}

/// Reads the fixed-width numeric head of a plan line.
#[verifier::rlimit(100)]
fn parse_plan_head(v: &Vec<char>, pos: usize) -> (r: Option<(u64, Schedule, u64, u64, u64)>)
    requires
        pos <= v@.len(),
    ensures
        r is Some ==> pos + 106 <= v@.len(),
        forall|p: PlanView|
            matches_at(v@, pos as int, enc_plan(p)) ==> r == Some(
                (p.id, p.schedule, p.last_refreshed_at, p.created_at, p.updated_at),
            ),
{
    proof {
        assert forall|p: PlanView| matches_at(v@, pos as int, enc_plan(p)) implies {
            &&& matches_at(v@, pos as int, enc_u64(p.id))
            &&& matches_at(v@, pos as int + 20, seq![' '])
            &&& matches_at(v@, pos as int + 21, enc_sched(p.schedule))
            &&& matches_at(v@, pos as int + 42, seq![' '])
            &&& matches_at(v@, pos as int + 43, enc_u64(p.last_refreshed_at))
            &&& matches_at(v@, pos as int + 63, seq![' '])
            &&& matches_at(v@, pos as int + 64, enc_u64(p.created_at))
            &&& matches_at(v@, pos as int + 84, seq![' '])
            &&& matches_at(v@, pos as int + 85, enc_u64(p.updated_at))
            &&& matches_at(v@, pos as int + 105, seq![' '])
        } by {
            lemma_plan_fields_match(v@, pos as int, p);
        }
    }
    let (id, p1) = match parse_u64(v, pos) {
        Some(x) => x,
        None => {
            return None;
        },
    };
    let p2 = match expect_char(v, p1, ' ') {
        Some(x) => x,
        None => {
            return None;
        },
    };
    let (schedule, p3) = match parse_sched(v, p2) {
        Some(x) => x,
        None => {
            return None;
        },
    };
    let p4 = match expect_char(v, p3, ' ') {
        Some(x) => x,
        None => {
            return None;
        },
    };
    let (last_refreshed_at, p5) = match parse_u64(v, p4) {
        Some(x) => x,
        None => {
            return None;
        },
    };
    let p6 = match expect_char(v, p5, ' ') {
        Some(x) => x,
        None => {
            return None;
        },
    };
    let (created_at, p7) = match parse_u64(v, p6) {
        Some(x) => x,
        None => {
            return None;
        },
    };
    let p8 = match expect_char(v, p7, ' ') {
        Some(x) => x,
        None => {
            return None;
        },
    };
    let (updated_at, p9) = match parse_u64(v, p8) {
        Some(x) => x,
        None => {
            return None;
        },
    };
    let p10 = match expect_char(v, p9, ' ') {
        Some(x) => x,
        None => {
            return None;
        },
    };
    Some((id, schedule, last_refreshed_at, created_at, updated_at))
}

/// Reads a text field followed by one expected delimiter.
#[verifier::rlimit(100)]
fn parse_str_then(v: &Vec<char>, q: usize, delim: char) -> (r: Option<(Vec<char>, usize)>)
    requires
        q <= v@.len(),
    ensures
        r matches Some(x) ==> x.1 <= v@.len() && x.1 == q + 22 + x.0@.len(),
        forall|a: Seq<char>|
            {
                &&& a.len() <= u64::MAX
                &&& matches_at(v@, q as int, enc_str(a))
                &&& matches_at(v@, q as int + enc_str(a).len(), seq![delim])
            } ==> {
                &&& r matches Some(x)
                &&& x.0@ == a
                &&& x.1 == q + enc_str(a).len() + 1
            },
{
    let (chars, p1) = match parse_str(v, q) {
        Some(x) => x,
        None => {
            return None;
        },
    };
    let p2 = match expect_char(v, p1, delim) {
        Some(x) => x,
        None => {
            return None;
        },
    };
    Some((chars, p2))
}

/// Reads one plan line.
#[verifier::rlimit(100)]
fn parse_plan(v: &Vec<char>, pos: usize) -> (r: Option<(Plan, usize)>)
    requires
        pos <= v@.len(),
    ensures
        r matches Some(p) ==> p.1 <= v@.len() && p.1 > pos,
        forall|p: PlanView|
            p.title.len() <= u64::MAX && p.description.len() <= u64::MAX && matches_at(
                v@,
                pos as int,
                enc_plan(p),
            ) ==> {
                &&& r matches Some(q)
                &&& q.0@ == p
                &&& q.1 == pos + enc_plan(p).len()
            },
{
    proof {
        assert forall|p: PlanView| matches_at(v@, pos as int, enc_plan(p)) implies {
            &&& matches_at(v@, pos as int + 106, enc_str(p.title))
            &&& matches_at(v@, pos as int + 106 + enc_str(p.title).len(), seq![' '])
            &&& matches_at(v@, pos as int + 107 + enc_str(p.title).len(), enc_str(p.description))
            &&& matches_at(
                v@,
                pos as int + 107 + enc_str(p.title).len() + enc_str(p.description).len(),
                seq!['\n'],
            )
            &&& enc_plan(p).len() == 108 + enc_str(p.title).len() + enc_str(p.description).len()
        } by {
            lemma_plan_fields_match(v@, pos as int, p);
        }
    }
    let vlen = v.len();
    let (id, schedule, last_refreshed_at, created_at, updated_at) = match parse_plan_head(v, pos) {
        Some(x) => x,
        None => {
            return None;
        },
    };
    proof {
        assert(pos + 106 <= vlen);
    }
    let (title_chars, p12) = match parse_str_then(v, pos + 106, ' ') {
        Some(x) => x,
        None => {
            return None;
        },
    };
    let (desc_chars, p14) = match parse_str_then(v, p12, '\n') {
        Some(x) => x,
        None => {
            return None;
        },
    };
    let title = string_from_chars(&title_chars);
    let description = string_from_chars(&desc_chars);
    let plan = Plan { id, title, description, schedule, last_refreshed_at, created_at, updated_at };
    proof {
        assert forall|p: PlanView|
            p.title.len() <= u64::MAX && p.description.len() <= u64::MAX && matches_at(
                v@,
                pos as int,
                enc_plan(p),
            ) implies plan@ == p && p14 == pos + enc_plan(p).len() by {
            assert(plan@ =~= p);
        }
    }
    Some((plan, p14))
}

/// Decides well-formedness of a candidate plan store.
fn check_plan_wf(st: &PlanStore) -> (r: bool)
    ensures
        r == plan_store_wf(st@),
{
    let mut i: usize = 0;
    while i < st.items.len()
        invariant
            i <= st.items.len(),
            forall|a: int, b: int|
                0 <= a < b < st@.items.len() && a < i ==> st@.items[a].id != st@.items[b].id,
            forall|a: int|
                0 <= a < i ==> st@.items[a].id < st@.next_id && st@.items[a].title.len() > 0,
        decreases st.items.len() - i,
    {
        if st.items[i].id >= st.next_id {
            proof {
                assert(st@.items[i as int].id >= st@.next_id);
            }
            return false;
        }
        if st.items[i].title.as_str().is_empty() {
            proof {
                assert(st@.items[i as int].title.len() == 0);
            }
            return false;
        }
        let mut j: usize = i + 1;
        while j < st.items.len()
            invariant
                i < j <= st.items.len(),
                i < st.items.len(),
                forall|b: int| i < b < j ==> st@.items[i as int].id != st@.items[b].id,
            decreases st.items.len() - j,
        {
            if st.items[i].id == st.items[j].id {
                proof {
                    assert(st@.items[i as int].id == st@.items[j as int].id);
                }
                return false;
            }
            j = j + 1;
        }
        i = i + 1;
    }
    true
}

/// Splits a matched plan-store encoding into header and record block.
proof fn lemma_plan_store_fields_match(v: Seq<char>, s: PlanStoreView)
    requires
        v == enc_plan_store(s),
    ensures
        matches_at(v, 0, enc_u64(s.next_id)),
        matches_at(v, 20, seq!['\n']),
        matches_at(v, 21, enc_u64(s.items.len() as u64)),
        matches_at(v, 41, seq!['\n']),
        matches_at(v, 42, enc_plan_records(s.items)),
        v.len() == 42 + enc_plan_records(s.items).len(),
{
    assert(v.subrange(0, v.len() as int) =~= v);
    assert(v =~= enc_u64(s.next_id) + v.skip(20));
    lemma_matches_split(v, 0, enc_u64(s.next_id), v.skip(20));
    assert(v.skip(20) =~= seq!['\n'] + v.skip(21));
    lemma_matches_split(v, 20, seq!['\n'], v.skip(21));
    assert(v.skip(21) =~= enc_u64(s.items.len() as u64) + v.skip(41));
    lemma_matches_split(v, 21, enc_u64(s.items.len() as u64), v.skip(41));
    assert(v.skip(41) =~= seq!['\n'] + v.skip(42));
    lemma_matches_split(v, 41, seq!['\n'], v.skip(42));
    assert(v.skip(42) =~= enc_plan_records(s.items));
}

/// One plan of the block, then the rest of the block.
proof fn lemma_plan_records_step(v: Seq<char>, pos: int, items: Seq<PlanView>, k: int)
    requires
        0 <= k < items.len(),
        matches_at(v, pos, enc_plan_records(items.skip(k))),
    ensures
        matches_at(v, pos, enc_plan(items[k])),
        matches_at(v, pos + enc_plan(items[k]).len(), enc_plan_records(items.skip(k + 1))),
        enc_plan_records(items.skip(k)).len() == enc_plan(items[k]).len() + enc_plan_records(
            items.skip(k + 1),
        ).len(),
{
    assert(items.skip(k)[0] == items[k]);
    assert(items.skip(k).drop_first() =~= items.skip(k + 1));
    assert(enc_plan_records(items.skip(k)) == enc_plan(items[k]) + enc_plan_records(
        items.skip(k + 1),
    ));
    lemma_matches_split(v, pos, enc_plan(items[k]), enc_plan_records(items.skip(k + 1)));
}

/// Whether `v` is the canonical encoding of the well-formed plan store `s`.
pub open spec fn is_plan_encoding(v: Seq<char>, s: PlanStoreView) -> bool {
    &&& plan_store_wf(s)
    &&& plan_fits(s)
    &&& v == enc_plan_store(s)
}

/// Recognizes exactly the canonical plan-store encodings; the plan
/// counterpart of `decode_todo_store`.
pub fn decode_plan_store(v: &Vec<char>) -> (r: Option<PlanStore>)
    ensures
        r matches Some(st) ==> is_plan_encoding(v@, st@),
        forall|s: PlanStoreView| is_plan_encoding(v@, s) ==> (r matches Some(st) && st@ == s),
{
    proof {
        assert forall|s: PlanStoreView| is_plan_encoding(v@, s) implies {
            &&& matches_at(v@, 0, enc_u64(s.next_id))
            &&& matches_at(v@, 20, seq!['\n'])
            &&& matches_at(v@, 21, enc_u64(s.items.len() as u64))
            &&& matches_at(v@, 41, seq!['\n'])
            &&& matches_at(v@, 42, enc_plan_records(s.items))
            &&& v@.len() == 42 + enc_plan_records(s.items).len()
        } by {
            lemma_plan_store_fields_match(v@, s);
        }
    }
    let (next_id, q1) = match parse_u64(v, 0) {
        Some(x) => x,
        None => {
            return None;
        },
    };
    let q2 = match expect_char(v, q1, '\n') {
        Some(x) => x,
        None => {
            return None;
        },
    };
    let (count, q3) = match parse_u64(v, q2) {
        Some(x) => x,
        None => {
            return None;
        },
    };
    let q4 = match expect_char(v, q3, '\n') {
        Some(x) => x,
        None => {
            return None;
        },
    };
    let mut items: Vec<Plan> = Vec::new();
    let mut pos: usize = q4;
    let mut k: u64 = 0;
    proof {
        assert(items@.map_values(|p: Plan| p@) =~= Seq::<PlanView>::empty());
        assert forall|s: PlanStoreView| is_plan_encoding(v@, s) implies {
            &&& items@.map_values(|p: Plan| p@) == s.items.take(0)
            &&& matches_at(v@, pos as int, enc_plan_records(s.items.skip(0)))
            &&& pos + enc_plan_records(s.items.skip(0)).len() == v@.len()
        } by {
            assert(s.items.take(0) =~= Seq::<PlanView>::empty());
            assert(s.items.skip(0) =~= s.items);
        }
    }
    while k < count
        invariant
            pos <= v@.len(),
            k <= count,
            items@.len() == k,
            forall|s: PlanStoreView|
                is_plan_encoding(v@, s) ==> {
                    &&& next_id == s.next_id
                    &&& count as nat == s.items.len()
                    &&& k as nat <= s.items.len()
                    &&& items@.map_values(|p: Plan| p@) == s.items.take(k as int)
                    &&& matches_at(v@, pos as int, enc_plan_records(s.items.skip(k as int)))
                    &&& pos + enc_plan_records(s.items.skip(k as int)).len() == v@.len()
                },
        decreases count - k,
    {
        proof {
            assert forall|s: PlanStoreView| is_plan_encoding(v@, s) implies {
                &&& matches_at(v@, pos as int, enc_plan(s.items[k as int]))
                &&& s.items[k as int].title.len() <= u64::MAX
                &&& s.items[k as int].description.len() <= u64::MAX
                &&& pos + enc_plan(s.items[k as int]).len() + enc_plan_records(
                    s.items.skip(k as int + 1),
                ).len() == v@.len()
            } by {
                lemma_plan_records_step(v@, pos as int, s.items, k as int);
            }
        }
        let (p, p2) = match parse_plan(v, pos) {
            Some(x) => x,
            None => {
                return None;
            },
        };
        items.push(p);
        proof {
            assert forall|s: PlanStoreView| is_plan_encoding(v@, s) implies {
                &&& items@.map_values(|pp: Plan| pp@) == s.items.take(k as int + 1)
                &&& matches_at(v@, p2 as int, enc_plan_records(s.items.skip(k as int + 1)))
                &&& p2 + enc_plan_records(s.items.skip(k as int + 1)).len() == v@.len()
            } by {
                lemma_plan_records_step(v@, pos as int, s.items, k as int);
                assert(items@.map_values(|pp: Plan| pp@) =~= s.items.take(k as int + 1));
            }
        }
        pos = p2;
        k = k + 1;
    }
    if pos != v.len() {
        proof {
            assert forall|s: PlanStoreView| is_plan_encoding(v@, s) implies false by {
                assert(s.items.skip(k as int) =~= Seq::<PlanView>::empty());
                assert(enc_plan_records(s.items.skip(k as int)) =~= Seq::<char>::empty());
            }
        }
        return None;
    }
    let st = PlanStore { next_id, items };
    proof {
        assert forall|s: PlanStoreView| is_plan_encoding(v@, s) implies st@ == s by {
            assert(s.items.take(k as int) =~= s.items);
            assert(st@ =~= s);
        }
    }
    if !check_plan_wf(&st) {
        return None;
    }
    let out2 = encode_plan_store(&st);
    if !eq_chars(&out2, v) {
        return None;
    }
    Some(st)
}

/// Loads a plan collection, falling soft like `load_todo_store`.
pub fn load_plan_store(v: &Vec<char>) -> (r: PlanStore)
    ensures
        plan_store_wf(r@),
        forall|s: PlanStoreView| is_plan_encoding(v@, s) ==> r@ == s,
        !(exists|s: PlanStoreView| is_plan_encoding(v@, s)) ==> r@ == (PlanStoreView {
            next_id: 0,
            items: Seq::<PlanView>::empty(),
        }),
{
    match decode_plan_store(v) {
        Some(st) => {
            proof {
                assert(is_plan_encoding(v@, st@));
            }
            st
        },
        None => PlanStore::new(),
    }
}

/// The plan store as durable text.
pub fn plans_to_string(s: &PlanStore) -> (r: String)
    ensures
        r@ == enc_plan_store(s@),
        plan_fits(s@),
{
    let out = encode_plan_store(s);
    string_from_chars(&out)
}

/// Loads a plan collection from durable text; see `load_plan_store`.
pub fn plans_from_str(text: &str) -> (r: PlanStore)
    ensures
        plan_store_wf(r@),
        forall|s: PlanStoreView| is_plan_encoding(text@, s) ==> r@ == s,
        !(exists|s: PlanStoreView| is_plan_encoding(text@, s)) ==> r@ == (PlanStoreView {
            next_id: 0,
            items: Seq::<PlanView>::empty(),
        }),
{
    let v = chars_of(text);
    load_plan_store(&v)
}

} // verus!
