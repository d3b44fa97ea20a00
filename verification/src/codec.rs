//! The persistence document: the whole collection as one JSON array,
//! one record per line, and its parser. Writing a collection and
//! parsing the document back yields the collection unchanged.
//!
//! Amounts appear as a signed decimal with exactly two fraction digits
//! (cents). Text is escaped: quote, backslash, newline, carriage
//! return and tab are written as two-character escapes.

use vstd::prelude::*;
use crate::date::{Date, date_seq, parse_date_seq, digit_char, digit_val, is_digit,
    lemma_digit_char_val, lemma_date_roundtrip, parse_date};
use crate::tx::{Transaction, TxView, tx_valid, is_id_seq, is_hex_lower, is_id_string};
use crate::store::{views, all_valid, unique_ids, sanitize, Store, lemma_sanitize_identity};
use crate::text::{str_chars, string_from_chars};
use crate::ident::dec_val;
use crate::num::{all_digits, lemma_dec_val_nonneg, lemma_dec_val_mono};

verus! {

// ---------- the document grammar: writing ----------

pub open spec fn lit_obj_id() -> Seq<char> {
    seq!['{', '"', 'i', 'd', '"', ':', ' ', '"']
}

pub open spec fn mid_date() -> Seq<char> {
    seq![',', ' ', '"', 'd', 'a', 't', 'e', '"', ':', ' ', '"']
}

pub open spec fn mid_category() -> Seq<char> {
    seq![',', ' ', '"', 'c', 'a', 't', 'e', 'g', 'o', 'r', 'y', '"', ':', ' ', '"']
}

pub open spec fn mid_description() -> Seq<char> {
    seq![',', ' ', '"', 'd', 'e', 's', 'c', 'r', 'i', 'p', 't', 'i', 'o', 'n', '"', ':', ' ', '"']
}

pub open spec fn mid_amount() -> Seq<char> {
    seq![',', ' ', '"', 'a', 'm', 'o', 'u', 'n', 't', '"', ':', ' ']
}

pub open spec fn lit_item_start() -> Seq<char> {
    seq!['\n', ' ', ' ']
}

pub open spec fn lit_close() -> Seq<char> {
    seq!['}']
}

pub open spec fn lit_open() -> Seq<char> {
    seq!['[']
}

pub open spec fn lit_end() -> Seq<char> {
    seq!['\n', ']']
}

/// How one character is written inside a quoted string.
pub open spec fn esc_char(c: char) -> Seq<char> {
    if c == '"' {
        seq!['\\', '"']
    } else if c == '\\' {
        seq!['\\', '\\']
    } else if c == '\n' {
        seq!['\\', 'n']
    } else if c == '\r' {
        seq!['\\', 'r']
    } else if c == '\t' {
        seq!['\\', 't']
    } else {
        seq![c]
    }
}

/// How a whole text is written inside a quoted string.
pub open spec fn esc(s: Seq<char>) -> Seq<char>
    decreases s.len(),
{
    if s.len() == 0 {
        Seq::empty()
    } else {
        esc_char(s[0]) + esc(s.skip(1))
    }
}

/// A non-negative number in decimal, no leading zeros.
pub open spec fn dec_var(n: int) -> Seq<char>
    decreases n,
{
    if n < 10 {
        seq![digit_char(n)]
    } else {
        dec_var(n / 10).push(digit_char(n % 10))
    }
}

/// An amount in cents as a signed decimal with two fraction digits.
pub open spec fn amount_seq(a: i64) -> Seq<char> {
    let abs = if a < 0 {
        -(a as int)
    } else {
        a as int
    };
    let sign: Seq<char> = if a < 0 {
        seq!['-']
    } else {
        Seq::empty()
    };
    sign + dec_var(abs / 100) + seq!['.'] + seq![
        digit_char((abs % 100) / 10),
        digit_char(abs % 10),
    ]
}

/// One record, as one JSON object.
pub open spec fn enc_tx(t: TxView) -> Seq<char> {
    lit_obj_id() + t.id + seq!['"'] + mid_date() + date_seq(t.date) + seq!['"'] + mid_category()
        + esc(t.category) + seq!['"'] + mid_description() + esc(t.description) + seq!['"']
        + mid_amount() + amount_seq(t.amount) + seq!['}']
}

/// The records, comma-separated, each on its own indented line.
pub open spec fn enc_items(ts: Seq<TxView>) -> Seq<char>
    decreases ts.len(),
{
    if ts.len() == 0 {
        Seq::empty()
    } else {
        let head = lit_item_start() + enc_tx(ts[0]);
        if ts.len() == 1 {
            head
        } else {
            head + seq![','] + enc_items(ts.skip(1))
        }
    }
}

/// The whole document.
pub open spec fn enc(ts: Seq<TxView>) -> Seq<char> {
    seq!['['] + enc_items(ts) + seq!['\n', ']']
}

// ---------- writing, executably ----------

/// Appends the characters of `lit`.
fn push_lit(out: &mut Vec<char>, lit: &str)
    ensures
        final(out)@ == old(out)@ + lit@,
{
    let n = lit.unicode_len();
    let mut i: usize = 0;
    while i < n
        invariant
            n == lit@.len(),
            i <= n,
            out@ == old(out)@ + lit@.take(i as int),
        decreases n - i,
    {
        out.push(lit.get_char(i));
        proof {
            assert(out@ =~= old(out)@ + lit@.take(i + 1));
        }
        i += 1;
    }
    proof {
        assert(out@ =~= old(out)@ + lit@);
    }
}

/// Escaping distributes over concatenation.
pub proof fn lemma_esc_append(a: Seq<char>, b: Seq<char>)
    ensures
        esc(a + b) == esc(a) + esc(b),
    decreases a.len(),
{
    if a.len() == 0 {
        assert(a + b =~= b);
        assert(esc(a) + esc(b) =~= esc(b));
    } else {
        assert((a + b).skip(1) =~= a.skip(1) + b);
        lemma_esc_append(a.skip(1), b);
        assert(esc(a + b) =~= esc(a) + esc(b));
    }
}

/// Appends the escaped text.
fn push_esc(out: &mut Vec<char>, s: &String)
    ensures
        final(out)@ == old(out)@ + esc(s@),
{
    let n = s.as_str().unicode_len();
    let mut i: usize = 0;
    while i < n
        invariant
            n == s@.len(),
            i <= n,
            out@ == old(out)@ + esc(s@.take(i as int)),
        decreases n - i,
    {
        let c = s.as_str().get_char(i);
        if c == '"' {
            out.push('\\');
            out.push('"');
        } else if c == '\\' {
            out.push('\\');
            out.push('\\');
        } else if c == '\n' {
            out.push('\\');
            out.push('n');
        } else if c == '\r' {
            out.push('\\');
            out.push('r');
        } else if c == '\t' {
            out.push('\\');
            out.push('t');
        } else {
            out.push(c);
        }
        proof {
            let pre = s@.take(i as int);
            assert(s@.take(i + 1) =~= pre + seq![s@[i as int]]);
            lemma_esc_append(pre, seq![s@[i as int]]);
            assert(seq![s@[i as int]].skip(1) =~= Seq::<char>::empty());
            assert(esc(Seq::<char>::empty()) =~= Seq::<char>::empty());
            assert(esc(seq![s@[i as int]]) == esc_char(seq![s@[i as int]][0]) + esc(
                seq![s@[i as int]].skip(1),
            ));
            assert(esc(seq![s@[i as int]]) =~= esc_char(s@[i as int]));
            assert(out@ =~= old(out)@ + esc(s@.take(i + 1)));
        }
        i += 1;
    }
    proof {
        assert(s@.take(n as int) =~= s@);
    }
}

/// Appends a non-negative number in decimal.
fn push_dec_var(out: &mut Vec<char>, n: u64)
    ensures
        final(out)@ == old(out)@ + dec_var(n as int),
    decreases n,
{
    if n < 10 {
        out.push((48 + n as u8) as char);
        proof {
            assert(out@ =~= old(out)@ + dec_var(n as int));
        }
    } else {
        push_dec_var(out, n / 10);
        out.push((48 + (n % 10) as u8) as char);
        proof {
            assert(out@ =~= old(out)@ + dec_var(n as int));
        }
    }
}

/// Appends an amount in cents as a signed decimal.
fn push_amount(out: &mut Vec<char>, a: i64)
    ensures
        final(out)@ == old(out)@ + amount_seq(a),
{
    let abs: u64 = if a < 0 {
        (-(a as i128)) as u64
    } else {
        a as u64
    };
    if a < 0 {
        out.push('-');
    }
    push_dec_var(out, abs / 100);
    out.push('.');
    let frac: u64 = abs % 100;
    out.push((48 + (frac / 10) as u8) as char);
    out.push((48 + (frac % 10) as u8) as char);
    proof {
        assert(out@ =~= old(out)@ + amount_seq(a));
    }
}

/// Appends a date as its ten canonical characters.
fn push_date(out: &mut Vec<char>, d: Date)
    requires
        d.valid(),
    ensures
        final(out)@ == old(out)@ + date_seq(d),
{
    out.push((48 + (d.year / 1000) as u8) as char);
    out.push((48 + ((d.year / 100) % 10) as u8) as char);
    out.push((48 + ((d.year / 10) % 10) as u8) as char);
    out.push((48 + (d.year % 10) as u8) as char);
    out.push('-');
    out.push((48 + (d.month / 10) as u8) as char);
    out.push((48 + (d.month % 10) as u8) as char);
    out.push('-');
    out.push((48 + (d.day / 10) as u8) as char);
    out.push((48 + (d.day % 10) as u8) as char);
    proof {
        assert(out@ =~= old(out)@ + date_seq(d));
    }
}

/// Appends one record.
fn push_tx(out: &mut Vec<char>, t: &Transaction)
    requires
        t@.date.valid(),
    ensures
        final(out)@ == old(out)@ + enc_tx(t@),
{
    push_lit(out, "{\"id\": \"");
    proof {
        reveal_strlit("{\"id\": \"");
        assert("{\"id\": \""@ =~= lit_obj_id());
    }
    push_lit(out, t.id.as_str());
    push_lit(out, "\", \"date\": \"");
    proof {
        reveal_strlit("\", \"date\": \"");
        assert("\", \"date\": \""@ =~= seq!['"'] + mid_date());
    }
    push_date(out, t.date);
    push_lit(out, "\", \"category\": \"");
    proof {
        reveal_strlit("\", \"category\": \"");
        assert("\", \"category\": \""@ =~= seq!['"'] + mid_category());
    }
    push_esc(out, &t.category);
    push_lit(out, "\", \"description\": \"");
    proof {
        reveal_strlit("\", \"description\": \"");
        assert("\", \"description\": \""@ =~= seq!['"'] + mid_description());
    }
    push_esc(out, &t.description);
    push_lit(out, "\", \"amount\": ");
    proof {
        reveal_strlit("\", \"amount\": ");
        assert("\", \"amount\": "@ =~= seq!['"'] + mid_amount());
    }
    push_amount(out, t.amount);
    out.push('}');
    proof {
        assert(out@ =~= old(out)@ + enc_tx(t@));
    }
}

/// Appending one record to the encoded list.
proof fn lemma_enc_items_push(ts: Seq<TxView>, t: TxView)
    ensures
        ts.len() == 0 ==> enc_items(ts.push(t)) == lit_item_start() + enc_tx(t),
        ts.len() > 0 ==> enc_items(ts.push(t)) == enc_items(ts) + seq![','] + lit_item_start()
            + enc_tx(t),
    decreases ts.len(),
{
    if ts.len() == 0 {
        assert(ts.push(t)[0] == t);
        assert(enc_items(ts.push(t)) =~= lit_item_start() + enc_tx(t));
    } else {
        lemma_enc_items_push(ts.skip(1), t);
        assert(ts.push(t).skip(1) =~= ts.skip(1).push(t));
        assert(ts.push(t)[0] == ts[0]);
        if ts.len() == 1 {
            assert(enc_items(ts.push(t)) =~= enc_items(ts) + seq![','] + lit_item_start()
                + enc_tx(t));
        } else {
            assert(enc_items(ts.push(t)) =~= enc_items(ts) + seq![','] + lit_item_start()
                + enc_tx(t));
        }
    }
}

/// Writes the whole collection as one document.
#[verifier::loop_isolation(false)]
pub fn encode(v: &Vec<Transaction>) -> (r: String)
    requires
        all_valid(views(v@)),
    ensures
        r@ == enc(views(v@)),
{
    let mut out: Vec<char> = Vec::new();
    out.push('[');
    let mut i: usize = 0;
    while i < v.len()
        invariant
            i <= v@.len(),
            out@ == seq!['['] + enc_items(views(v@).take(i as int)),
        decreases v@.len() - i,
    {
        if i > 0 {
            out.push(',');
        }
        push_lit(&mut out, "\n  ");
        proof {
            reveal_strlit("\n  ");
            assert("\n  "@ =~= lit_item_start());
        }
        proof {
            assert(tx_valid(views(v@)[i as int]));
        }
        push_tx(&mut out, &v[i]);
        proof {
            let pre = views(v@).take(i as int);
            assert(views(v@).take(i + 1) =~= pre.push(v@[i as int]@));
            lemma_enc_items_push(pre, v@[i as int]@);
            assert(out@ =~= seq!['['] + enc_items(views(v@).take(i + 1)));
        }
        i += 1;
    }
    out.push('\n');
    out.push(']');
    proof {
        assert(views(v@).take(v@.len() as int) =~= views(v@));
        assert(out@ =~= enc(views(v@)));
    }
    string_from_chars(&out)
}


// ---------- the document grammar: reading ----------

/// Consumes the exact literal, or fails.
pub open spec fn expect(s: Seq<char>, lit: Seq<char>) -> Option<Seq<char>> {
    if lit.len() <= s.len() && s.take(lit.len() as int) == lit {
        Some(s.skip(lit.len() as int))
    } else {
        None
    }
}

/// The literal itself, followed by anything, is consumed exactly.
pub proof fn lemma_expect(lit: Seq<char>, rest: Seq<char>)
    ensures
        expect(lit + rest, lit) == Some(rest),
{
    assert((lit + rest).take(lit.len() as int) =~= lit);
    assert((lit + rest).skip(lit.len() as int) =~= rest);
}

/// The characters written as two-character escapes.
pub open spec fn is_escaped(c: char) -> bool {
    c == '"' || c == '\\' || c == '\n' || c == '\r' || c == '\t'
}

/// The second character of the escape for `c`.
pub open spec fn esc_code(c: char) -> char {
    if c == '"' {
        '"'
    } else if c == '\\' {
        '\\'
    } else if c == '\n' {
        'n'
    } else if c == '\r' {
        'r'
    } else {
        't'
    }
}

/// The character an escape code stands for.
pub open spec fn unesc_code(e: char) -> Option<char> {
    if e == '"' {
        Some('"')
    } else if e == '\\' {
        Some('\\')
    } else if e == 'n' {
        Some('\n')
    } else if e == 'r' {
        Some('\r')
    } else if e == 't' {
        Some('\t')
    } else {
        None
    }
}

/// Reads a quoted string up to and including its closing quote,
/// undoing escapes.
pub open spec fn parse_string(s: Seq<char>) -> Option<(Seq<char>, Seq<char>)>
    decreases s.len(),
{
    if s.len() == 0 {
        None
    } else if s[0] == '"' {
        Some((Seq::empty(), s.skip(1)))
    } else if s[0] == '\\' {
        if s.len() < 2 {
            None
        } else {
            match unesc_code(s[1]) {
                None => None,
                Some(ch) => match parse_string(s.skip(2)) {
                    None => None,
                    Some((t, r)) => Some((seq![ch] + t, r)),
                },
            }
        }
    } else {
        match parse_string(s.skip(1)) {
            None => None,
            Some((t, r)) => Some((seq![s[0]] + t, r)),
        }
    }
}

/// An escaped text with its closing quote reads back exactly.
pub proof fn lemma_string_roundtrip(x: Seq<char>, rest: Seq<char>)
    ensures
        parse_string(esc(x) + seq!['"'] + rest) == Some((x, rest)),
    decreases x.len(),
{
    let s = esc(x) + seq!['"'] + rest;
    if x.len() == 0 {
        assert(esc(x) =~= Seq::<char>::empty());
        assert(s =~= seq!['"'] + rest);
        assert(s[0] == '"');
        assert(s.skip(1) =~= rest);
        assert(Seq::<char>::empty() =~= x);
    } else {
        let c = x[0];
        let xs = x.skip(1);
        lemma_string_roundtrip(xs, rest);
        let s2 = esc(xs) + seq!['"'] + rest;
        assert(seq![c] + xs =~= x);
        if is_escaped(c) {
            assert(esc_char(c) =~= seq!['\\', esc_code(c)]);
            assert(s =~= seq!['\\', esc_code(c)] + s2);
            assert(s[0] == '\\');
            assert(s.len() >= 2);
            assert(s[1] == esc_code(c));
            assert(unesc_code(esc_code(c)) == Some(c));
            assert(s.skip(2) =~= s2);
        } else {
            assert(esc_char(c) =~= seq![c]);
            assert(s =~= seq![c] + s2);
            assert(s[0] == c);
            assert(c != '"' && c != '\\');
            assert(s.skip(1) =~= s2);
        }
    }
}

/// No character of the sequence needs an escape.
pub open spec fn plain(s: Seq<char>) -> bool {
    forall|i: int| 0 <= i < s.len() ==> !is_escaped(#[trigger] s[i])
}

/// Escaping leaves a plain sequence unchanged.
pub proof fn lemma_esc_plain(s: Seq<char>)
    requires
        plain(s),
    ensures
        esc(s) == s,
    decreases s.len(),
{
    if s.len() > 0 {
        assert(plain(s.skip(1)));
        lemma_esc_plain(s.skip(1));
        assert(esc_char(s[0]) =~= seq![s[0]]);
        assert(esc(s) =~= s);
    }
}

/// Identifiers are plain.
pub proof fn lemma_id_plain(s: Seq<char>)
    requires
        is_id_seq(s),
    ensures
        plain(s),
{
    assert forall|i: int| 0 <= i < s.len() implies !is_escaped(#[trigger] s[i]) by {
        assert(s[i] == '-' || is_hex_lower(s[i]));
    }
}

/// Dates are plain.
pub proof fn lemma_date_plain(d: Date)
    requires
        d.valid(),
    ensures
        plain(date_seq(d)),
{
    let y = d.year as int;
    let m = d.month as int;
    let dd = d.day as int;
    lemma_digit_char_val(y / 1000);
    lemma_digit_char_val((y / 100) % 10);
    lemma_digit_char_val((y / 10) % 10);
    lemma_digit_char_val(y % 10);
    lemma_digit_char_val(m / 10);
    lemma_digit_char_val(m % 10);
    lemma_digit_char_val(dd / 10);
    lemma_digit_char_val(dd % 10);
}

/// How many leading characters are digits.
pub open spec fn num_digits_prefix(s: Seq<char>) -> nat
    decreases s.len(),
{
    if s.len() == 0 || !is_digit(s[0]) {
        0
    } else {
        (1 + num_digits_prefix(s.skip(1))) as nat
    }
}

/// Reads the leading digits as a number below the parser's bound.
pub open spec fn parse_dec(s: Seq<char>) -> Option<(int, Seq<char>)> {
    let k = num_digits_prefix(s) as int;
    if k == 0 {
        None
    } else {
        let v = dec_val(s.take(k));
        if v < 1000000000000000000 {
            Some((v, s.skip(k)))
        } else {
            None
        }
    }
}

/// A written number is made of digits and reads back as itself.
pub proof fn lemma_dec_var_props(n: int)
    requires
        0 <= n,
    ensures
        dec_var(n).len() >= 1,
        all_digits(dec_var(n)),
        dec_val(dec_var(n)) == n,
    decreases n,
{
    assert(dec_val(Seq::<char>::empty()) == 0);
    if n < 10 {
        lemma_digit_char_val(n);
        let s = dec_var(n);
        assert(s =~= seq![digit_char(n)]);
        assert(s.drop_last() =~= Seq::<char>::empty());
        assert(s.last() == digit_char(n));
        assert(dec_val(s) == dec_val(s.drop_last()) * 10 + digit_val(s.last()));
    } else {
        lemma_dec_var_props(n / 10);
        lemma_digit_char_val(n % 10);
        let pre = dec_var(n / 10);
        let s = pre.push(digit_char(n % 10));
        assert(s.drop_last() =~= pre);
        assert(s.last() == digit_char(n % 10));
        assert(dec_val(s) == dec_val(pre) * 10 + digit_val(digit_char(n % 10)));
    }
}

/// The digit prefix of digits-then-other is exactly the digits.
pub proof fn lemma_digits_prefix(d: Seq<char>, rest: Seq<char>)
    requires
        all_digits(d),
        rest.len() > 0,
        !is_digit(rest[0]),
    ensures
        num_digits_prefix(d + rest) == d.len(),
    decreases d.len(),
{
    if d.len() == 0 {
        assert(d + rest =~= rest);
    } else {
        assert((d + rest)[0] == d[0]);
        assert((d + rest).skip(1) =~= d.skip(1) + rest);
        assert(all_digits(d.skip(1)));
        lemma_digits_prefix(d.skip(1), rest);
    }
}

/// A written number followed by a non-digit reads back exactly.
pub proof fn lemma_dec_roundtrip(n: int, rest: Seq<char>)
    requires
        0 <= n < 1000000000000000000,
        rest.len() > 0,
        !is_digit(rest[0]),
    ensures
        parse_dec(dec_var(n) + rest) == Some((n, rest)),
{
    lemma_dec_var_props(n);
    lemma_digits_prefix(dec_var(n), rest);
    let s = dec_var(n) + rest;
    let k = dec_var(n).len() as int;
    assert(s.take(k) =~= dec_var(n));
    assert(s.skip(k) =~= rest);
}

/// Reads a signed decimal with two fraction digits, in cents.
pub open spec fn parse_amount(s: Seq<char>) -> Option<(i64, Seq<char>)> {
    let neg = s.len() > 0 && s[0] == '-';
    let s1 = if neg {
        s.skip(1)
    } else {
        s
    };
    match parse_dec(s1) {
        None => None,
        Some((whole, s2)) => {
            if s2.len() >= 3 && s2[0] == '.' && is_digit(s2[1]) && is_digit(s2[2]) {
                let mag = whole * 100 + digit_val(s2[1]) * 10 + digit_val(s2[2]);
                let v: int = if neg {
                    -mag
                } else {
                    mag
                };
                if i64::MIN <= v <= i64::MAX {
                    Some((v as i64, s2.skip(3)))
                } else {
                    None
                }
            } else {
                None
            }
        },
    }
}

/// A written amount followed by a non-digit reads back exactly.
pub proof fn lemma_amount_roundtrip(a: i64, rest: Seq<char>)
    requires
        rest.len() > 0,
        !is_digit(rest[0]),
    ensures
        parse_amount(amount_seq(a) + rest) == Some((a, rest)),
{
    let abs: int = if a < 0 {
        -(a as int)
    } else {
        a as int
    };
    let d1 = digit_char((abs % 100) / 10);
    let d2 = digit_char(abs % 10);
    let tail = seq!['.', d1, d2] + rest;
    lemma_dec_var_props(abs / 100);
    lemma_digit_char_val((abs % 100) / 10);
    lemma_digit_char_val(abs % 10);
    assert(!is_digit('.'));
    lemma_dec_roundtrip(abs / 100, tail);
    let s = amount_seq(a) + rest;
    let body = dec_var(abs / 100) + tail;
    assert(abs % 10 == (abs % 100) % 10) by (nonlinear_arith)
        requires
            abs >= 0,
    ;
    assert((abs / 100) * 100 + ((abs % 100) / 10) * 10 + (abs % 100) % 10 == abs);
    if a < 0 {
        assert(s =~= seq!['-'] + body);
        assert(s[0] == '-');
        assert(s.skip(1) =~= body);
        let s2 = tail;
        assert(s2[0] == '.' && is_digit(s2[1]) && is_digit(s2[2]));
        assert(s2.skip(3) =~= rest);
    } else {
        assert(s =~= body);
        assert(dec_var(abs / 100).len() >= 1);
        assert(s[0] == dec_var(abs / 100)[0]);
        assert(is_digit(s[0]));
        assert(s[0] != '-');
        let s2 = tail;
        assert(s2[0] == '.' && is_digit(s2[1]) && is_digit(s2[2]));
        assert(s2.skip(3) =~= rest);
    }
}


/// Reads a record's description and amount fields and the closing
/// brace.
pub open spec fn parse_tx_tail(
    idc: Seq<char>,
    d: Date,
    cat: Seq<char>,
    s6: Seq<char>,
) -> Option<(TxView, Seq<char>)> {
    match expect(s6, mid_description()) {
        None => None,
        Some(s7) => match parse_string(s7) {
            None => None,
            Some((desc, s8)) => match expect(s8, mid_amount()) {
                None => None,
                Some(s9) => match parse_amount(s9) {
                    None => None,
                    Some((a, s10)) => match expect(s10, lit_close()) {
                        None => None,
                        Some(s11) => Some(
                            (TxView { id: idc, date: d, category: cat, description: desc, amount: a }, s11),
                        ),
                    },
                },
            },
        },
    }
}

/// Reads a record's date and category fields.
pub open spec fn parse_tx_mid(idc: Seq<char>, s2: Seq<char>) -> Option<(TxView, Seq<char>)> {
    match expect(s2, mid_date()) {
        None => None,
        Some(s3) => match parse_string(s3) {
            None => None,
            Some((dc, s4)) => match parse_date_seq(dc) {
                None => None,
                Some(d) => match expect(s4, mid_category()) {
                    None => None,
                    Some(s5) => match parse_string(s5) {
                        None => None,
                        Some((cat, s6)) => parse_tx_tail(idc, d, cat, s6),
                    },
                },
            },
        },
    }
}

/// Reads one record.
pub open spec fn parse_tx(s: Seq<char>) -> Option<(TxView, Seq<char>)> {
    match expect(s, lit_obj_id()) {
        None => None,
        Some(s1) => match parse_string(s1) {
            None => None,
            Some((idc, s2)) => {
                if !is_id_seq(idc) {
                    None
                } else {
                    parse_tx_mid(idc, s2)
                }
            },
        },
    }
}

/// A written record reads back exactly.
#[verifier::rlimit(60)]
pub proof fn lemma_tx_roundtrip(t: TxView, rest: Seq<char>)
    requires
        tx_valid(t),
    ensures
        parse_tx(enc_tx(t) + rest) == Some((t, rest)),
{
    let s = enc_tx(t) + rest;
    let r5 = mid_amount() + amount_seq(t.amount) + lit_close() + rest;
    let r4 = mid_description() + esc(t.description) + seq!['"'] + r5;
    let r3 = mid_category() + esc(t.category) + seq!['"'] + r4;
    let r2 = mid_date() + date_seq(t.date) + seq!['"'] + r3;
    let r1 = t.id + seq!['"'] + r2;
    assert(s =~= lit_obj_id() + r1);
    lemma_expect(lit_obj_id(), r1);
    lemma_id_plain(t.id);
    lemma_esc_plain(t.id);
    assert(r1 =~= esc(t.id) + seq!['"'] + r2);
    lemma_string_roundtrip(t.id, r2);
    assert(r2 =~= mid_date() + (date_seq(t.date) + seq!['"'] + r3));
    lemma_expect(mid_date(), date_seq(t.date) + seq!['"'] + r3);
    lemma_date_plain(t.date);
    lemma_esc_plain(date_seq(t.date));
    assert(date_seq(t.date) + seq!['"'] + r3 =~= esc(date_seq(t.date)) + seq!['"'] + r3);
    lemma_string_roundtrip(date_seq(t.date), r3);
    lemma_date_roundtrip(t.date);
    assert(r3 =~= mid_category() + (esc(t.category) + seq!['"'] + r4));
    lemma_expect(mid_category(), esc(t.category) + seq!['"'] + r4);
    lemma_string_roundtrip(t.category, r4);
    assert(r4 =~= mid_description() + (esc(t.description) + seq!['"'] + r5));
    lemma_expect(mid_description(), esc(t.description) + seq!['"'] + r5);
    lemma_string_roundtrip(t.description, r5);
    assert(r5 =~= mid_amount() + (amount_seq(t.amount) + (lit_close() + rest)));
    lemma_expect(mid_amount(), amount_seq(t.amount) + (lit_close() + rest));
    assert(lit_close()[0] == '}' && !is_digit('}'));
    assert((lit_close() + rest).len() > 0 && (lit_close() + rest)[0] == '}');
    lemma_amount_roundtrip(t.amount, lit_close() + rest);
    lemma_expect(lit_close(), rest);
    assert(TxView {
        id: t.id,
        date: t.date,
        category: t.category,
        description: t.description,
        amount: t.amount,
    } =~= t);
}

/// Reads the comma-separated records; the fuel only bounds recursion
/// and any value at least the number of records is enough.
pub open spec fn parse_items(s: Seq<char>, fuel: nat) -> Option<(Seq<TxView>, Seq<char>)>
    decreases fuel,
{
    if fuel == 0 {
        None
    } else {
        match expect(s, lit_item_start()) {
            None => None,
            Some(s1) => match parse_tx(s1) {
                None => None,
                Some((t, r)) => if r.len() >= 1 && r[0] == ',' {
                    match parse_items(r.skip(1), (fuel - 1) as nat) {
                        None => None,
                        Some((ts, rr)) => Some((seq![t] + ts, rr)),
                    }
                } else {
                    Some((seq![t], r))
                },
            },
        }
    }
}

/// The written list is at least as long as the list itself.
pub proof fn lemma_enc_items_len(ts: Seq<TxView>)
    ensures
        enc_items(ts).len() >= ts.len(),
    decreases ts.len(),
{
    if ts.len() > 1 {
        lemma_enc_items_len(ts.skip(1));
    }
}

/// A written record list followed by anything but a comma reads back
/// exactly, given enough fuel.
#[verifier::rlimit(100)]
pub proof fn lemma_items_roundtrip(ts: Seq<TxView>, rest: Seq<char>, fuel: nat)
    requires
        ts.len() >= 1,
        all_valid(ts),
        fuel >= ts.len(),
        rest.len() >= 1,
        rest[0] != ',',
    ensures
        parse_items(enc_items(ts) + rest, fuel) == Some((ts, rest)),
    decreases ts.len(),
{
    let head = lit_item_start() + enc_tx(ts[0]);
    let s = enc_items(ts) + rest;
    assert(tx_valid(ts[0]));
    if ts.len() == 1 {
        assert(s =~= lit_item_start() + (enc_tx(ts[0]) + rest));
        lemma_expect(lit_item_start(), enc_tx(ts[0]) + rest);
        lemma_tx_roundtrip(ts[0], rest);
        assert(seq![ts[0]] =~= ts);
    } else {
        let rest2 = seq![','] + enc_items(ts.skip(1)) + rest;
        assert(s =~= lit_item_start() + (enc_tx(ts[0]) + rest2));
        lemma_expect(lit_item_start(), enc_tx(ts[0]) + rest2);
        lemma_tx_roundtrip(ts[0], rest2);
        assert(rest2[0] == ',');
        assert(rest2.skip(1) =~= enc_items(ts.skip(1)) + rest);
        assert(all_valid(ts.skip(1)));
        lemma_items_roundtrip(ts.skip(1), rest, (fuel - 1) as nat);
        assert(seq![ts[0]] + ts.skip(1) =~= ts);
    }
}

/// Reads a whole document: the array, then nothing.
pub open spec fn parse_doc(s: Seq<char>) -> Option<Seq<TxView>> {
    match expect(s, lit_open()) {
        None => None,
        Some(s1) => match expect(s1, lit_end()) {
            Some(r) => if r.len() == 0 {
                Some(Seq::empty())
            } else {
                None
            },
            None => match parse_items(s1, s1.len()) {
                None => None,
                Some((ts, r)) => match expect(r, lit_end()) {
                    Some(rr) => if rr.len() == 0 {
                        Some(ts)
                    } else {
                        None
                    },
                    None => None,
                },
            },
        },
    }
}

/// Round trip: a written collection of well-formed transactions reads
/// back as the same collection — same records, same order, same field
/// values.
pub proof fn lemma_codec_roundtrip(ts: Seq<TxView>)
    requires
        all_valid(ts),
    ensures
        parse_doc(enc(ts)) == Some(ts),
{
    let s = enc(ts);
    let s1 = enc_items(ts) + lit_end();
    assert(s =~= lit_open() + s1);
    lemma_expect(lit_open(), s1);
    if ts.len() == 0 {
        assert(enc_items(ts) =~= Seq::<char>::empty());
        assert(s1 =~= lit_end() + Seq::<char>::empty());
        lemma_expect(lit_end(), Seq::<char>::empty());
        assert(Seq::<TxView>::empty() =~= ts);
    } else {
        assert(enc_items(ts) == lit_item_start() + enc_tx(ts[0]) || enc_items(ts)
            == lit_item_start() + enc_tx(ts[0]) + seq![','] + enc_items(ts.skip(1)));
        assert(enc_items(ts)[1] == ' ');
        assert(s1[1] == ' ');
        assert(expect(s1, lit_end()) is None) by {
            if expect(s1, lit_end()) is Some {
                assert(s1.take(2) == lit_end());
                assert(s1.take(2)[1] == s1[1]);
            }
        }
        lemma_enc_items_len(ts);
        assert(lit_end()[0] == '\n' && lit_end().len() == 2);
        lemma_items_roundtrip(ts, lit_end(), s1.len());
        assert(lit_end() =~= lit_end() + Seq::<char>::empty());
        lemma_expect(lit_end(), Seq::<char>::empty());
    }
}


// ---------- reading, executably ----------

/// Consumes the exact literal at `pos`.
#[verifier::loop_isolation(false)]
fn e_expect(v: &Vec<char>, pos: usize, lit: &str) -> (r: Option<usize>)
    requires
        pos <= v@.len(),
    ensures
        match r {
            Some(p) => pos <= p <= v@.len() && p - pos == lit@.len() && expect(
                v@.skip(pos as int),
                lit@,
            ) == Some(v@.skip(p as int)),
            None => expect(v@.skip(pos as int), lit@) is None,
        },
{
    let ghost suf = v@.skip(pos as int);
    let n = lit.unicode_len();
    if v.len() - pos < n {
        return None;
    }
    let mut i: usize = 0;
    while i < n
        invariant
            i <= n,
            forall|j: int| 0 <= j < i ==> suf[j] == lit@[j],
        decreases n - i,
    {
        if v[pos + i] != lit.get_char(i) {
            proof {
                assert(suf[i as int] != lit@[i as int]);
                assert(suf.take(n as int)[i as int] == suf[i as int]);
            }
            return None;
        }
        i += 1;
    }
    proof {
        assert(suf.take(n as int) =~= lit@);
        assert(suf.skip(n as int) =~= v@.skip(pos + n));
    }
    Some(pos + n)
}

/// Reads a quoted string at `pos`, returning its unescaped content.
#[verifier::loop_isolation(false)]
fn e_parse_string(v: &Vec<char>, pos: usize) -> (r: Option<(Vec<char>, usize)>)
    requires
        pos <= v@.len(),
    ensures
        match r {
            Some((c, p)) => pos < p <= v@.len() && parse_string(v@.skip(pos as int)) == Some(
                (c@, v@.skip(p as int)),
            ),
            None => parse_string(v@.skip(pos as int)) is None,
        },
{
    let mut content: Vec<char> = Vec::new();
    let mut i: usize = pos;
    while i < v.len()
        invariant
            pos <= i <= v@.len(),
            parse_string(v@.skip(pos as int)) == (match parse_string(v@.skip(i as int)) {
                None => None::<(Seq<char>, Seq<char>)>,
                Some((t, r)) => Some((content@ + t, r)),
            }),
        decreases v@.len() - i,
    {
        let c = v[i];
        proof {
            assert(v@.skip(i as int)[0] == c);
        }
        if c == '"' {
            proof {
                assert(v@.skip(i as int).skip(1) =~= v@.skip(i + 1));
                assert(content@ + Seq::<char>::empty() =~= content@);
            }
            return Some((content, i + 1));
        } else if c == '\\' {
            if i + 1 >= v.len() {
                proof {
                    assert(v@.skip(i as int).len() < 2);
                }
                return None;
            }
            let e = v[i + 1];
            proof {
                assert(v@.skip(i as int)[1] == e);
            }
            let ch: char = if e == '"' {
                '"'
            } else if e == '\\' {
                '\\'
            } else if e == 'n' {
                '\n'
            } else if e == 'r' {
                '\r'
            } else if e == 't' {
                '\t'
            } else {
                proof {
                    assert(unesc_code(e) is None);
                }
                return None;
            };
            proof {
                assert(unesc_code(e) == Some(ch));
            }
            let ghost content_pre = content@;
            content.push(ch);
            proof {
                assert(v@.skip(i as int).skip(2) =~= v@.skip(i + 2));
                assert forall|t: Seq<char>| true implies content_pre + (seq![ch] + t) == content@
                    + t by {
                    assert(content_pre + (seq![ch] + t) =~= content@ + t);
                }
            }
            i += 2;
        } else {
            let ghost content_pre = content@;
            content.push(c);
            proof {
                assert(v@.skip(i as int).skip(1) =~= v@.skip(i + 1));
                assert forall|t: Seq<char>| true implies content_pre + (seq![c] + t) == content@
                    + t by {
                    assert(content_pre + (seq![c] + t) =~= content@ + t);
                }
            }
            i += 1;
        }
    }
    proof {
        assert(v@.skip(i as int).len() == 0);
    }
    None
}

/// Reads the digits at `pos` as a number below the parser's bound.
#[verifier::loop_isolation(false)]
fn e_parse_dec(v: &Vec<char>, pos: usize) -> (r: Option<(u64, usize)>)
    requires
        pos <= v@.len(),
    ensures
        match r {
            Some((n, p)) => pos < p <= v@.len() && parse_dec(v@.skip(pos as int)) == Some(
                (n as int, v@.skip(p as int)),
            ),
            None => parse_dec(v@.skip(pos as int)) is None,
        },
{
    let ghost suf = v@.skip(pos as int);
    let mut acc: u64 = 0;
    let mut i: usize = pos;
    let mut done = false;
    while i < v.len() && !done
        invariant
            pos <= i <= v@.len(),
            suf == v@.skip(pos as int),
            all_digits(suf.take(i - pos)),
            acc == dec_val(suf.take(i - pos)),
            acc < 1000000000000000000,
            done ==> i < v@.len() && !is_digit(suf[i - pos]),
        decreases v@.len() - i + (if done { 0int } else { 1int }),
    {
        let c = v[i];
        if !('0' <= c && c <= '9') {
            proof {
                assert(suf[i - pos] == v@[i as int]);
            }
            done = true;
            continue;
        }
        let d: u64 = c as u64 - 48;
        proof {
            let pre = suf.take(i - pos);
            let cur = suf.take(i + 1 - pos);
            assert(cur.drop_last() =~= pre);
            assert(cur.last() == v@[i as int]);
            assert(is_digit(v@[i as int]));
            assert(dec_val(cur) == acc * 10 + d);
        }
        let newacc = acc * 10 + d;
        if newacc >= 1000000000000000000 {
            proof {
                let k = num_digits_prefix(suf) as int;
                lemma_ndp_lower(suf, i + 1 - pos);
                lemma_ndp_all_digits(suf);
                assert(suf.take(i + 1 - pos) =~= suf.take(k).take(i + 1 - pos));
                lemma_dec_val_mono(suf.take(k), i + 1 - pos);
            }
            return None;
        }
        acc = newacc;
        i += 1;
    }
    proof {
        lemma_ndp(suf, i - pos);
    }
    if i == pos {
        return None;
    }
    proof {
        assert(suf.skip(i - pos) =~= v@.skip(i as int));
    }
    Some((acc, i))
}

/// The digit prefix is exactly up to the first non-digit.
proof fn lemma_ndp(s: Seq<char>, k: int)
    requires
        0 <= k <= s.len(),
        all_digits(s.take(k)),
        k == s.len() || !is_digit(s[k]),
    ensures
        num_digits_prefix(s) == k,
    decreases k,
{
    if k == 0 {
    } else {
        assert(s.take(k)[0] == s[0]);
        assert(is_digit(s[0]));
        assert(s.skip(1).take(k - 1) =~= s.take(k).skip(1));
        assert(all_digits(s.skip(1).take(k - 1)));
        lemma_ndp(s.skip(1), k - 1);
    }
}

/// At least as many leading digits as any all-digit prefix.
proof fn lemma_ndp_lower(s: Seq<char>, m: int)
    requires
        0 <= m <= s.len(),
        all_digits(s.take(m)),
    ensures
        num_digits_prefix(s) >= m,
    decreases m,
{
    if m > 0 {
        assert(s.take(m)[0] == s[0]);
        assert(is_digit(s[0]));
        assert(s.skip(1).take(m - 1) =~= s.take(m).skip(1));
        assert(all_digits(s.skip(1).take(m - 1)));
        lemma_ndp_lower(s.skip(1), m - 1);
    }
}

/// The digit prefix is made of digits.
proof fn lemma_ndp_all_digits(s: Seq<char>)
    ensures
        all_digits(s.take(num_digits_prefix(s) as int)),
        num_digits_prefix(s) <= s.len(),
    decreases s.len(),
{
    if s.len() > 0 && is_digit(s[0]) {
        lemma_ndp_all_digits(s.skip(1));
        let k = num_digits_prefix(s) as int;
        assert(s.skip(1).take(k - 1) =~= s.take(k).skip(1));
        assert forall|j: int| 0 <= j < k implies is_digit(#[trigger] s.take(k)[j]) by {
            if j > 0 {
                assert(s.take(k)[j] == s.skip(1).take(k - 1)[j - 1]);
            }
        }
    }
}

/// Reads a signed two-fraction-digit decimal at `pos`, in cents.
fn e_parse_amount(v: &Vec<char>, pos: usize) -> (r: Option<(i64, usize)>)
    requires
        pos <= v@.len(),
    ensures
        match r {
            Some((a, p)) => pos < p <= v@.len() && parse_amount(v@.skip(pos as int)) == Some(
                (a, v@.skip(p as int)),
            ),
            None => parse_amount(v@.skip(pos as int)) is None,
        },
{
    let neg = pos < v.len() && v[pos] == '-';
    let q = if neg {
        pos + 1
    } else {
        pos
    };
    proof {
        assert(v@.skip(pos as int).len() > 0 ==> v@.skip(pos as int)[0] == v@[pos as int]);
        if neg {
            assert(v@.skip(pos as int).skip(1) =~= v@.skip(pos + 1));
        }
    }
    match e_parse_dec(v, q) {
        None => None,
        Some((whole, p2)) => {
            let ghost s2 = v@.skip(p2 as int);
            if v.len() - p2 > 2 && {
                let dot = v[p2];
                let a1 = v[p2 + 1];
                let a2 = v[p2 + 2];
                dot == '.' && '0' <= a1 && a1 <= '9' && '0' <= a2 && a2 <= '9'
            } {
                let d1: u64 = v[p2 + 1] as u64 - 48;
                let d2: u64 = v[p2 + 2] as u64 - 48;
                proof {
                    assert(s2[0] == v@[p2 as int]);
                    assert(s2[1] == v@[p2 + 1]);
                    assert(s2[2] == v@[p2 + 2]);
                    assert(s2.skip(3) =~= v@.skip(p2 + 3));
                }
                let mag: u128 = (whole as u128) * 100 + (d1 as u128) * 10 + (d2 as u128);
                if neg {
                    let val: i128 = -(mag as i128);
                    if val >= -0x8000_0000_0000_0000i128 {
                        Some(((val as i64), p2 + 3))
                    } else {
                        None
                    }
                } else {
                    if mag <= 0x7fff_ffff_ffff_ffff {
                        Some(((mag as u64) as i64, p2 + 3))
                    } else {
                        None
                    }
                }
            } else {
                proof {
                    if s2.len() >= 3 {
                        assert(s2[0] == v@[p2 as int]);
                        assert(s2[1] == v@[p2 + 1]);
                        assert(s2[2] == v@[p2 + 2]);
                    }
                }
                None
            }
        },
    }
}


/// Reads one record at `pos`.
fn e_parse_tx(v: &Vec<char>, pos: usize) -> (r: Option<(Transaction, usize)>)
    requires
        pos <= v@.len(),
    ensures
        match r {
            Some((t, p)) => pos < p <= v@.len() && parse_tx(v@.skip(pos as int)) == Some(
                (t@, v@.skip(p as int)),
            ) && tx_valid(t@),
            None => parse_tx(v@.skip(pos as int)) is None,
        },
{
    let p1 = match e_expect(v, pos, "{\"id\": \"") {
        Some(p) => p,
        None => {
            proof {
                reveal_strlit("{\"id\": \"");
                assert("{\"id\": \""@ =~= lit_obj_id());
            }
            return None;
        },
    };
    proof {
        reveal_strlit("{\"id\": \"");
        assert("{\"id\": \""@ =~= lit_obj_id());
    }
    let (idv, p2) = match e_parse_string(v, p1) {
        Some(x) => x,
        None => {
            return None;
        },
    };
    let id = string_from_chars(&idv);
    if !is_id_string(id.as_str()) {
        return None;
    }
    let p3 = match e_expect(v, p2, ", \"date\": \"") {
        Some(p) => p,
        None => {
            proof {
                reveal_strlit(", \"date\": \"");
                assert(", \"date\": \""@ =~= mid_date());
            }
            return None;
        },
    };
    proof {
        reveal_strlit(", \"date\": \"");
        assert(", \"date\": \""@ =~= mid_date());
    }
    let (dv, p4) = match e_parse_string(v, p3) {
        Some(x) => x,
        None => {
            return None;
        },
    };
    let ds = string_from_chars(&dv);
    let d = match parse_date(ds.as_str()) {
        Some(d) => d,
        None => {
            return None;
        },
    };
    let p5 = match e_expect(v, p4, ", \"category\": \"") {
        Some(p) => p,
        None => {
            proof {
                reveal_strlit(", \"category\": \"");
                assert(", \"category\": \""@ =~= mid_category());
            }
            return None;
        },
    };
    proof {
        reveal_strlit(", \"category\": \"");
        assert(", \"category\": \""@ =~= mid_category());
    }
    let (catv, p6) = match e_parse_string(v, p5) {
        Some(x) => x,
        None => {
            return None;
        },
    };
    let cat = string_from_chars(&catv);
    let p7 = match e_expect(v, p6, ", \"description\": \"") {
        Some(p) => p,
        None => {
            proof {
                reveal_strlit(", \"description\": \"");
                assert(", \"description\": \""@ =~= mid_description());
            }
            return None;
        },
    };
    proof {
        reveal_strlit(", \"description\": \"");
        assert(", \"description\": \""@ =~= mid_description());
    }
    let (descv, p8) = match e_parse_string(v, p7) {
        Some(x) => x,
        None => {
            return None;
        },
    };
    let desc = string_from_chars(&descv);
    let p9 = match e_expect(v, p8, ", \"amount\": ") {
        Some(p) => p,
        None => {
            proof {
                reveal_strlit(", \"amount\": ");
                assert(", \"amount\": "@ =~= mid_amount());
            }
            return None;
        },
    };
    proof {
        reveal_strlit(", \"amount\": ");
        assert(", \"amount\": "@ =~= mid_amount());
    }
    let (a, p10) = match e_parse_amount(v, p9) {
        Some(x) => x,
        None => {
            return None;
        },
    };
    let p11 = match e_expect(v, p10, "}") {
        Some(p) => p,
        None => {
            proof {
                reveal_strlit("}");
                assert("}"@ =~= lit_close());
            }
            return None;
        },
    };
    proof {
        reveal_strlit("}");
        assert("}"@ =~= lit_close());
    }
    let t = Transaction { id, date: d, category: cat, description: desc, amount: a };
    Some((t, p11))
}

/// Reads the record list at `pos`.
fn e_parse_items(v: &Vec<char>, pos: usize) -> (r: Option<(Vec<Transaction>, usize)>)
    requires
        pos <= v@.len(),
    ensures
        match r {
            Some((ts, p)) => pos < p <= v@.len() && forall|fuel: nat|
                fuel >= v@.len() - pos ==> parse_items(v@.skip(pos as int), fuel) == Some(
                    (views(ts@), v@.skip(p as int)),
                ),
            None => forall|fuel: nat| parse_items(v@.skip(pos as int), fuel) is None,
        },
    decreases v@.len() - pos,
{
    let p1 = match e_expect(v, pos, "\n  ") {
        Some(p) => p,
        None => {
            proof {
                reveal_strlit("\n  ");
                assert("\n  "@ =~= lit_item_start());
            }
            return None;
        },
    };
    proof {
        reveal_strlit("\n  ");
        assert("\n  "@ =~= lit_item_start());
    }
    let (t, p2) = match e_parse_tx(v, p1) {
        Some(x) => x,
        None => {
            return None;
        },
    };
    let ghost tv = t@;
    if p2 < v.len() && v[p2] == ',' {
        proof {
            assert(v@.skip(p2 as int)[0] == v@[p2 as int]);
            assert(v@.skip(p2 as int).skip(1) =~= v@.skip(p2 + 1));
        }
        match e_parse_items(v, p2 + 1) {
            Some((ts2, p3)) => {
                let mut out: Vec<Transaction> = Vec::new();
                out.push(t);
                let mut rest2 = ts2;
                out.append(&mut rest2);
                proof {
                    assert(views(out@) =~= seq![tv] + views(ts2@));
                    assert forall|fuel: nat| fuel >= v@.len() - pos implies #[trigger] parse_items(
                        v@.skip(pos as int),
                        fuel,
                    ) == Some((views(out@), v@.skip(p3 as int))) by {
                        assert(fuel >= 1);
                        assert(fuel - 1 >= v@.len() - (p2 + 1));
                        assert(parse_items(v@.skip(p2 + 1), (fuel - 1) as nat) == Some(
                            (views(ts2@), v@.skip(p3 as int)),
                        ));
                    }
                }
                Some((out, p3))
            },
            None => {
                proof {
                    assert forall|fuel: nat| #[trigger] parse_items(
                        v@.skip(pos as int),
                        fuel,
                    ) is None by {
                        if fuel > 0 {
                            assert(parse_items(v@.skip(p2 + 1), (fuel - 1) as nat) is None);
                        }
                    }
                }
                None
            },
        }
    } else {
        proof {
            if p2 < v@.len() {
                assert(v@.skip(p2 as int)[0] == v@[p2 as int]);
            } else {
                assert(v@.skip(p2 as int).len() == 0);
            }
        }
        let mut out: Vec<Transaction> = Vec::new();
        out.push(t);
        proof {
            assert(views(out@) =~= seq![tv]);
            assert forall|fuel: nat| fuel >= v@.len() - pos implies #[trigger] parse_items(
                v@.skip(pos as int),
                fuel,
            ) == Some((views(out@), v@.skip(p2 as int))) by {
                assert(fuel >= 1);
            }
        }
        Some((out, p2))
    }
}

/// Reads a whole document; the collection it holds, or nothing if the
/// text is not a document this library writes.
pub fn decode(s: &str) -> (r: Option<Vec<Transaction>>)
    ensures
        match r {
            Some(out) => parse_doc(s@) == Some(views(out@)) && all_valid(views(out@)),
            None => parse_doc(s@) is None,
        },
{
    let v = str_chars(s);
    proof {
        assert(v@.skip(0) =~= s@);
    }
    let p1 = match e_expect(&v, 0, "[") {
        Some(p) => p,
        None => {
            proof {
                reveal_strlit("[");
                assert("["@ =~= lit_open());
            }
            return None;
        },
    };
    proof {
        reveal_strlit("[");
        assert("["@ =~= lit_open());
    }
    match e_expect(&v, p1, "\n]") {
        Some(p2) => {
            proof {
                reveal_strlit("\n]");
                assert("\n]"@ =~= lit_end());
            }
            if p2 == v.len() {
                let out: Vec<Transaction> = Vec::new();
                proof {
                    assert(views(out@) =~= Seq::<TxView>::empty());
                    assert(v@.skip(p2 as int).len() == 0);
                }
                Some(out)
            } else {
                None
            }
        },
        None => {
            proof {
                reveal_strlit("\n]");
                assert("\n]"@ =~= lit_end());
            }
            match e_parse_items(&v, p1) {
                None => {
                    proof {
                        assert(v@.skip(p1 as int).len() >= 0);
                    }
                    None
                },
                Some((ts, p2)) => {
                    proof {
                        assert(v@.skip(p1 as int).len() == v@.len() - p1);
                    }
                    match e_expect(&v, p2, "\n]") {
                        None => None,
                        Some(p3) => {
                            proof {
                                reveal_strlit("\n]");
                                assert("\n]"@ =~= lit_end());
                            }
                            if p3 == v.len() {
                                proof {
                                    assert(v@.skip(p3 as int).len() == 0);
                                    lemma_parse_items_valid(v@.skip(p1 as int), views(ts@),
                                        v@.skip(p2 as int), (v@.len() - p1) as nat);
                                }
                                Some(ts)
                            } else {
                                None
                            }
                        },
                    }
                },
            }
        },
    }
}

/// Whatever the list parser accepts is made of well-formed records.
proof fn lemma_parse_items_valid(s: Seq<char>, ts: Seq<TxView>, rest: Seq<char>, fuel: nat)
    requires
        parse_items(s, fuel) == Some((ts, rest)),
    ensures
        all_valid(ts),
    decreases fuel,
{
    let s1 = expect(s, lit_item_start())->0;
    let (t, r) = parse_tx(s1)->0;
    lemma_parse_tx_valid(s1, t, r);
    if r.len() >= 1 && r[0] == ',' {
        let (ts2, rr) = parse_items(r.skip(1), (fuel - 1) as nat)->0;
        lemma_parse_items_valid(r.skip(1), ts2, rr, (fuel - 1) as nat);
        assert(ts == seq![t] + ts2);
        assert forall|i: int| 0 <= i < ts.len() implies tx_valid(#[trigger] ts[i]) by {
            if i > 0 {
                assert(ts[i] == ts2[i - 1]);
            }
        }
    } else {
        assert(ts == seq![t]);
    }
}

/// Whatever the record parser accepts is well formed.
proof fn lemma_parse_tx_valid(s: Seq<char>, t: TxView, r: Seq<char>)
    requires
        parse_tx(s) == Some((t, r)),
    ensures
        tx_valid(t),
{
}


// ---------- the persistence document of a store ----------

/// Writes the store's whole collection as one document.
pub fn encode_store(store: &Store) -> (r: String)
    requires
        store.wf(),
    ensures
        r@ == enc(store@),
{
    encode(&store.transactions)
}

/// Adopts a document: a store holding the collection it describes, or
/// an empty one when the text is not a document this library writes.
pub fn load_store(content: &str) -> (s: Store)
    ensures
        s.wf(),
        match parse_doc(content@) {
            Some(ts) => s@ == sanitize(ts),
            None => s@ == Seq::<TxView>::empty(),
        },
        (parse_doc(content@) matches Some(ts) && unique_ids(ts)) ==> s@ == parse_doc(
            content@,
        )->0,
{
    match decode(content) {
        Some(v) => Store::from_transactions(v),
        None => Store::new(),
    }
}

/// Round trip: writing a well-formed collection and reading the
/// document back yields an equal collection — same records, same
/// order, same field values — and adopting it changes nothing.
pub proof fn lemma_save_load(ts: Seq<TxView>)
    requires
        unique_ids(ts),
        all_valid(ts),
    ensures
        parse_doc(enc(ts)) == Some(ts),
        sanitize(ts) == ts,
{
    lemma_codec_roundtrip(ts);
    lemma_sanitize_identity(ts);
}

} // verus!
