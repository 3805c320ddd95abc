//! Pitch names such as `c4` or `f3b` and the numeric pitches they stand for.
//!
//! A name is a note letter, a signed octave number and, for the five raised
//! pitch classes, a trailing `b` that marks a sharp.
use vstd::prelude::*;
use vstd::string::*;

verus! {

/// Lowest pitch of the playable window (c2).
pub const MIN_PITCH: u8 = 36;

/// Highest pitch of the playable window (c5).
pub const MAX_PITCH: u8 = 72;

/// Pitch class of a natural note letter, or `None` for any other character.
pub open spec fn letter_base(c: char) -> Option<int> {
    if c == 'c' {
        Some(0)
    } else if c == 'd' {
        Some(2)
    } else if c == 'e' {
        Some(4)
    } else if c == 'f' {
        Some(5)
    } else if c == 'g' {
        Some(7)
    } else if c == 'a' {
        Some(9)
    } else if c == 'b' {
        Some(11)
    } else {
        None
    }
}

pub open spec fn is_digit(c: char) -> bool {
    '0' <= c && c <= '9'
}

pub open spec fn all_digits(s: Seq<char>) -> bool {
    forall|i: int| 0 <= i < s.len() ==> is_digit(#[trigger] s[i])
}

/// Value of a run of decimal digits, most significant first.
pub open spec fn digits_value(s: Seq<char>) -> int
    decreases s.len(),
{
    if s.len() == 0 {
        0
    } else {
        digits_value(s.drop_last()) * 10 + (s.last() as int - '0' as int)
    }
}

/// A signed 32-bit decimal integer: an optional `+` or `-`, then at least one digit.
pub open spec fn parse_int(s: Seq<char>) -> Option<int> {
    let neg = s.len() > 0 && s[0] == '-';
    let signed = s.len() > 0 && (s[0] == '-' || s[0] == '+');
    let body = if signed { s.skip(1) } else { s };
    if body.len() == 0 || !all_digits(body) {
        None
    } else {
        let v = if neg { -digits_value(body) } else { digits_value(body) };
        if i32::MIN <= v <= i32::MAX {
            Some(v)
        } else {
            None
        }
    }
}

/// A name marks a sharp when it is longer than two characters and ends in `b`.
pub open spec fn marks_sharp(s: Seq<char>) -> bool {
    s.len() > 2 && s.last() == 'b'
}

/// The pitch a name stands for: `(octave + 1) * 12 + letter + sharp`.
pub open spec fn decode(s: Seq<char>) -> Option<int> {
    if s.len() == 0 {
        None
    } else {
        match letter_base(s[0]) {
            None => None,
            Some(base) => {
                let end = if marks_sharp(s) { s.len() - 1 } else { s.len() as int };
                match parse_int(s.subrange(1, end)) {
                    None => None,
                    Some(octave) => Some((octave + 1) * 12 + base + if marks_sharp(s) { 1int } else { 0 }),
                }
            },
        }
    }
}

pub open spec fn digit_char(d: int) -> char {
    if d == 0 { '0' }
    else if d == 1 { '1' }
    else if d == 2 { '2' }
    else if d == 3 { '3' }
    else if d == 4 { '4' }
    else if d == 5 { '5' }
    else if d == 6 { '6' }
    else if d == 7 { '7' }
    else if d == 8 { '8' }
    else { '9' }
}

/// Decimal digits of a natural number, without leading zeros.
pub open spec fn nat_digits(n: nat) -> Seq<char>
    decreases n,
{
    if n < 10 {
        seq![digit_char(n as int)]
    } else {
        nat_digits(n / 10) + seq![digit_char((n % 10) as int)]
    }
}

/// Decimal text of an integer, with a leading `-` when it is negative.
pub open spec fn int_text(n: int) -> Seq<char> {
    if n < 0 {
        seq!['-'] + nat_digits((-n) as nat)
    } else {
        nat_digits(n as nat)
    }
}

/// Letter written for each pitch class; a raised class uses the letter below.
pub open spec fn class_letter(pc: int) -> char {
    if pc <= 1 { 'c' }
    else if pc <= 3 { 'd' }
    else if pc == 4 { 'e' }
    else if pc <= 6 { 'f' }
    else if pc <= 8 { 'g' }
    else if pc <= 10 { 'a' }
    else { 'b' }
}

pub open spec fn class_is_sharp(pc: int) -> bool {
    pc == 1 || pc == 3 || pc == 6 || pc == 8 || pc == 10
}

/// The name of a pitch: letter, octave `p / 12 - 1`, and `b` for a raised class.
pub open spec fn encode(p: int) -> Seq<char> {
    let pc = p % 12;
    seq![class_letter(pc)] + int_text(p / 12 - 1) + if class_is_sharp(pc) {
        seq!['b']
    } else {
        Seq::<char>::empty()
    }
}

fn letter_to_base(c: char) -> (r: Option<u8>)
    ensures
        match r {
            Some(v) => letter_base(c) == Some(v as int),
            None => letter_base(c) is None,
        },
{
    match c {
        'c' => Some(0),
        'd' => Some(2),
        'e' => Some(4),
        'f' => Some(5),
        'g' => Some(7),
        'a' => Some(9),
        'b' => Some(11),
        _ => None,
    }
}


proof fn lemma_digits_prefix(s: Seq<char>, k: int)
    requires
        all_digits(s),
        0 <= k <= s.len(),
    ensures
        0 <= digits_value(s.take(k)) <= digits_value(s),
    decreases s.len(),
{
    if k == s.len() {
        assert(s.take(k) =~= s);
        if s.len() > 0 {
            lemma_digits_prefix(s.drop_last(), s.len() - 1);
            assert(s.drop_last().take(s.len() - 1) =~= s.drop_last());
        }
    } else {
        lemma_digits_prefix(s.drop_last(), k);
        assert(s.drop_last().take(k) =~= s.take(k));
        lemma_digits_prefix(s.drop_last(), s.len() - 1);
        assert(s.drop_last().take(s.len() - 1) =~= s.drop_last());
    }
}

/// Reads the signed octave number held by `s` from `lo` up to `hi`.
fn parse_octave(s: &str, lo: usize, hi: usize) -> (r: Option<i64>)
    requires
        lo <= hi <= s@.len(),
    ensures
        match r {
            Some(v) => parse_int(s@.subrange(lo as int, hi as int)) == Some(v as int),
            None => parse_int(s@.subrange(lo as int, hi as int)) is None,
        },
{
    let ghost t = s@.subrange(lo as int, hi as int);
    if lo == hi {
        return None;
    }
    let c0 = s.get_char(lo);
    let neg = c0 == '-';
    assert(t[0] == c0);
    let start: usize = if c0 == '-' || c0 == '+' { lo + 1 } else { lo };
    let ghost body = s@.subrange(start as int, hi as int);
    assert(body =~= if t.len() > 0 && (t[0] == '-' || t[0] == '+') { t.skip(1) } else { t });
    if start == hi {
        return None;
    }
    let mut acc: i64 = 0;
    let mut i: usize = start;
    while i < hi
        invariant
            start <= i <= hi <= s@.len(),
            body == s@.subrange(start as int, hi as int),
            t == s@.subrange(lo as int, hi as int),
            t.len() > 0,
            t[0] == c0,
            neg == (c0 == '-'),
            body == if t.len() > 0 && (t[0] == '-' || t[0] == '+') { t.skip(1) } else { t },
            body.len() > 0,
            0 <= acc <= 2147483648,
            acc == digits_value(s@.subrange(start as int, i as int)),
            all_digits(s@.subrange(start as int, i as int)),
        decreases hi - i,
    {
        let c = s.get_char(i);
        if !('0' <= c && c <= '9') {
            assert(body[i - start] == c);
            assert(!all_digits(body));
            return None;
        }
        let ghost prev = s@.subrange(start as int, i as int);
        let ghost next = s@.subrange(start as int, i + 1);
        assert(next.drop_last() =~= prev);
        assert(next.last() == c);
        acc = acc * 10 + (c as u32 - '0' as u32) as i64;
        i = i + 1;
        assert(all_digits(next)) by {
            assert forall|j: int| 0 <= j < next.len() implies is_digit(#[trigger] next[j]) by {
                if j < next.len() - 1 {
                    assert(next[j] == prev[j]);
                }
            }
        }
        if acc > 2147483648 {
            proof {
                let b = body;
                assert(all_digits(b) ==> digits_value(b) >= acc) by {
                    if all_digits(b) {
                        lemma_digits_prefix(b, i - start);
                        assert(b.take(i - start) =~= next);
                    }
                }
                assert(parse_int(t) is None);
            }
            return None;
        }
    }
    assert(s@.subrange(start as int, i as int) =~= body);
    if neg {
        Some(-acc)
    } else if acc > 2147483647 {
        None
    } else {
        Some(acc)
    }
}

/// Decodes a pitch name into its numeric pitch; `None` when the name has no
/// note letter first or no signed 32-bit octave number after it.
pub fn key_name_to_midi(key_name: &str) -> (r: Option<i64>)
    ensures
        match r {
            Some(v) => decode(key_name@) == Some(v as int),
            None => decode(key_name@) is None,
        },
{
    let n = key_name.unicode_len();
    if n == 0 {
        return None;
    }
    let base = match letter_to_base(key_name.get_char(0)) {
        Some(b) => b,
        None => return None,
    };
    let sharp = n > 2 && key_name.get_char(n - 1) == 'b';
    assert(sharp == marks_sharp(key_name@));
    let end: usize = if sharp { n - 1 } else { n };
    match parse_octave(key_name, 1, end) {
        Some(octave) => {
            let raise: i64 = if sharp { 1 } else { 0 };
            Some((octave + 1) * 12 + base as i64 + raise)
        },
        None => None,
    }
}


fn class_letter_text(pc: u8) -> (r: &'static str)
    requires
        pc < 12,
    ensures
        r@ == seq![class_letter(pc as int)],
{
    if pc <= 1 {
        proof { reveal_strlit("c"); }
        "c"
    } else if pc <= 3 {
        proof { reveal_strlit("d"); }
        "d"
    } else if pc == 4 {
        proof { reveal_strlit("e"); }
        "e"
    } else if pc <= 6 {
        proof { reveal_strlit("f"); }
        "f"
    } else if pc <= 8 {
        proof { reveal_strlit("g"); }
        "g"
    } else if pc <= 10 {
        proof { reveal_strlit("a"); }
        "a"
    } else {
        proof { reveal_strlit("b"); }
        "b"
    }
}

fn digit_text(d: u8) -> (r: &'static str)
    requires
        d < 10,
    ensures
        r@ == seq![digit_char(d as int)],
{
    match d {
        0 => { proof { reveal_strlit("0"); } "0" },
        1 => { proof { reveal_strlit("1"); } "1" },
        2 => { proof { reveal_strlit("2"); } "2" },
        3 => { proof { reveal_strlit("3"); } "3" },
        4 => { proof { reveal_strlit("4"); } "4" },
        5 => { proof { reveal_strlit("5"); } "5" },
        6 => { proof { reveal_strlit("6"); } "6" },
        7 => { proof { reveal_strlit("7"); } "7" },
        8 => { proof { reveal_strlit("8"); } "8" },
        _ => { proof { reveal_strlit("9"); } "9" },
    }
}

/// Encodes a numeric pitch as its name, e.g. 60 as `c4` and 61 as `c4b`.
pub fn midi_note_to_key_name(midi: u8) -> (r: String)
    ensures
        r@ == encode(midi as int),
{
    let pc: u8 = midi % 12;
    let mut name = String::from_str(class_letter_text(pc));
    let ghost head = name@;
    if midi < 12 {
        proof { reveal_strlit("-1"); }
        name.append("-1");
        assert(int_text(midi as int / 12 - 1) =~= seq!['-', '1']);
    } else {
        let octave: u8 = midi / 12 - 1;
        if octave >= 10 {
            name.append(digit_text(octave / 10));
            name.append(digit_text(octave % 10));
            assert(nat_digits((octave / 10) as nat) == seq![digit_char((octave / 10) as int)]);
        } else {
            name.append(digit_text(octave));
        }
        assert(name@ =~= head + int_text(midi as int / 12 - 1));
    }
    if pc == 1 || pc == 3 || pc == 6 || pc == 8 || pc == 10 {
        proof { reveal_strlit("b"); }
        name.append("b");
    }
    assert(name@ =~= encode(midi as int));
    name
}

proof fn lemma_nat_digits(n: nat)
    ensures
        nat_digits(n).len() > 0,
        all_digits(nat_digits(n)),
        digits_value(nat_digits(n)) == n,
    decreases n,
{
    let s = nat_digits(n);
    if n < 10 {
        assert(s.drop_last() =~= Seq::<char>::empty());
        assert(digits_value(s.drop_last()) == 0);
        assert(digit_char(n as int) as int - '0' as int == n);
    } else {
        assert(digit_char((n % 10) as int) as int - '0' as int == n % 10);
        lemma_nat_digits(n / 10);
        let h = nat_digits(n / 10);
        assert(s.drop_last() =~= h);
        assert forall|i: int| 0 <= i < s.len() implies is_digit(#[trigger] s[i]) by {
            if i < h.len() {
                assert(s[i] == h[i]);
            }
        }
    }
}

proof fn lemma_int_text(n: int)
    requires
        i32::MIN < n <= i32::MAX,
    ensures
        parse_int(int_text(n)) == Some(n),
        int_text(n).len() > 0,
        is_digit(int_text(n).last()),
{
    let m: nat = if n < 0 { (-n) as nat } else { n as nat };
    lemma_nat_digits(m);
    let s = int_text(n);
    if n < 0 {
        assert(s.skip(1) =~= nat_digits(m));
    } else {
        assert(is_digit(s[0]));
    }
}

/// Every decoded pitch lies within twelve times the range of the octave number.
pub proof fn lemma_decode_bounds(s: Seq<char>)
    ensures
        decode(s) matches Some(v) ==> -25769803776 <= v <= 25769803788,
{
}

/// Decoding the name of a pitch gives that pitch back.
pub proof fn lemma_decode_encode(p: int)
    requires
        0 <= p <= 255,
    ensures
        decode(encode(p)) == Some(p),
{
    let pc = p % 12;
    let o = p / 12 - 1;
    lemma_int_text(o);
    let s = encode(p);
    let txt = int_text(o);
    if class_is_sharp(pc) {
        assert(marks_sharp(s));
        assert(s.subrange(1, s.len() - 1) =~= txt);
    } else {
        assert(s.last() == txt.last());
        assert(!marks_sharp(s));
        assert(s.subrange(1, s.len() as int) =~= txt);
    }
}

} // verus!
