//! Plain operations on text: equality, byte order, blank names, numbers in
//! decimal. A text is taken by its view, the sequence of its characters.

use vstd::prelude::*;

verus! {

/// `a` stands before `b` in the lexicographic order of bytes.
pub open spec fn bytes_before(a: Seq<u8>, b: Seq<u8>) -> bool
    decreases a.len(),
{
    if b.len() == 0 {
        false
    } else if a.len() == 0 {
        true
    } else if a[0] != b[0] {
        a[0] < b[0]
    } else {
        bytes_before(a.drop_first(), b.drop_first())
    }
}

/// `a` stands before `b` in the order of their UTF-8 encodings.
pub open spec fn text_before(a: Seq<char>, b: Seq<char>) -> bool {
    bytes_before(vstd::utf8::encode_utf8(a), vstd::utf8::encode_utf8(b))
}

/// Whether two texts are the same.
pub fn same(a: &str, b: &str) -> (r: bool)
    ensures
        r == (a@ == b@),
{
    let x = a.as_bytes();
    let y = b.as_bytes();
    if x.len() != y.len() {
        return false;
    }
    let mut i: usize = 0;
    while i < x.len()
        invariant
            i <= x@.len(),
            x@.len() == y@.len(),
            x@ == vstd::utf8::encode_utf8(a@),
            y@ == vstd::utf8::encode_utf8(b@),
            forall|j: int| 0 <= j < i ==> x@[j] == y@[j],
        decreases x@.len() - i,
    {
        if x[i] != y[i] {
            return false;
        }
        i = i + 1;
    }
    proof {
        assert(x@ =~= y@);
        vstd::utf8::encode_utf8_decode_utf8(a@);
        vstd::utf8::encode_utf8_decode_utf8(b@);
    }
    true
}

/// Whether `a` stands before `b`.
pub fn before(a: &str, b: &str) -> (r: bool)
    ensures
        r == text_before(a@, b@),
{
    let x = a.as_bytes();
    let y = b.as_bytes();
    let mut i: usize = 0;
    assert(x@.skip(0) =~= x@);
    assert(y@.skip(0) =~= y@);
    loop
        invariant
            i <= x@.len(),
            i <= y@.len(),
            x@ == vstd::utf8::encode_utf8(a@),
            y@ == vstd::utf8::encode_utf8(b@),
            bytes_before(x@, y@) == bytes_before(x@.skip(i as int), y@.skip(i as int)),
        decreases x@.len() - i,
    {
        if i == y.len() {
            return false;
        }
        if i == x.len() {
            return true;
        }
        if x[i] != y[i] {
            return x[i] < y[i];
        }
        assert(x@.skip(i as int).drop_first() =~= x@.skip(i + 1));
        assert(y@.skip(i as int).drop_first() =~= y@.skip(i + 1));
        i = i + 1;
    }
}

/// The order of bytes is irreflexive and transitive, and two different byte
/// strings stand in it one way round.
pub proof fn lemma_bytes_order(a: Seq<u8>, b: Seq<u8>, c: Seq<u8>)
    ensures
        !bytes_before(a, a),
        bytes_before(a, b) && bytes_before(b, c) ==> bytes_before(a, c),
        a != b ==> bytes_before(a, b) || bytes_before(b, a),
        !(bytes_before(a, b) && bytes_before(b, a)),
    decreases a.len(),
{
    if a.len() > 0 {
        if b.len() > 0 && c.len() > 0 {
            lemma_bytes_order(a.drop_first(), b.drop_first(), c.drop_first());
        } else {
            lemma_bytes_order(a.drop_first(), a.drop_first(), a.drop_first());
            if b.len() > 0 {
                lemma_bytes_order(a.drop_first(), b.drop_first(), c);
            }
        }
        if b.len() > 0 && a != b && a[0] == b[0] {
            assert(a.drop_first() != b.drop_first()) by {
                if a.drop_first() == b.drop_first() {
                    assert(a =~= seq![a[0]] + a.drop_first());
                    assert(b =~= seq![b[0]] + b.drop_first());
                }
            }
        }
    } else if b.len() == 0 {
        assert(a =~= b);
    }
}

/// The order of texts is irreflexive and transitive, and two different texts
/// stand in it one way round.
pub proof fn lemma_text_order(a: Seq<char>, b: Seq<char>, c: Seq<char>)
    ensures
        !text_before(a, a),
        text_before(a, b) && text_before(b, c) ==> text_before(a, c),
        a != b ==> text_before(a, b) || text_before(b, a),
        !(text_before(a, b) && text_before(b, a)),
{
    lemma_bytes_order(
        vstd::utf8::encode_utf8(a),
        vstd::utf8::encode_utf8(b),
        vstd::utf8::encode_utf8(c),
    );
    vstd::utf8::encode_utf8_decode_utf8(a);
    vstd::utf8::encode_utf8_decode_utf8(b);
}

/// A character with Unicode's `White_Space` property.
pub open spec fn is_white_space(c: char) -> bool {
    ||| '\u{9}' <= c <= '\u{d}'
    ||| c == '\u{20}'
    ||| c == '\u{85}'
    ||| c == '\u{a0}'
    ||| c == '\u{1680}'
    ||| '\u{2000}' <= c <= '\u{200a}'
    ||| c == '\u{2028}'
    ||| c == '\u{2029}'
    ||| c == '\u{202f}'
    ||| c == '\u{205f}'
    ||| c == '\u{3000}'
}

/// A text of white space alone; the empty text is one.
pub open spec fn is_blank(s: Seq<char>) -> bool {
    forall|i: int| 0 <= i < s.len() ==> is_white_space(#[trigger] s[i])
}

/// Whether a text is empty once trimmed.
pub fn blank(s: &str) -> (r: bool)
    ensures
        r == is_blank(s@),
{
    let cs = characters(s);
    let mut i: usize = 0;
    while i < cs.len()
        invariant
            i <= cs@.len(),
            cs@ == s@,
            forall|j: int| 0 <= j < i ==> is_white_space(#[trigger] s@[j]),
        decreases cs@.len() - i,
    {
        let c = cs[i];
        let white = ('\u{9}' <= c && c <= '\u{d}') || c == '\u{20}' || c == '\u{85}' || c
            == '\u{a0}' || c == '\u{1680}' || ('\u{2000}' <= c && c <= '\u{200a}') || c
            == '\u{2028}' || c == '\u{2029}' || c == '\u{202f}' || c == '\u{205f}' || c
            == '\u{3000}';
        if !white {
            assert(!is_white_space(s@[i as int]));
            return false;
        }
        i = i + 1;
    }
    true
}

/// The characters of a text, in order.
pub fn characters(s: &str) -> (r: Vec<char>)
    ensures
        r@ == s@,
{
    let mut r: Vec<char> = Vec::new();
    for c in it: s.chars()
        invariant
            r@ == s@.take(it.index() as int),
            it.seq() == s@,
    {
        proof {
            assert(s@.take(it.index() as int).push(c) =~= s@.take(it.index() + 1));
        }
        r.push(c);
    }
    proof {
        assert(s@.take(s@.len() as int) =~= s@);
    }
    r
}

/// The decimal digit of a number below ten.
pub open spec fn digit(d: int) -> char {
    (('0' as int) + d) as char
}

/// A natural number in decimal, without leading zeros.
pub open spec fn digits(n: nat) -> Seq<char>
    decreases n,
{
    if n < 10 {
        seq![digit(n as int)]
    } else {
        digits(n / 10).push(digit((n % 10) as int))
    }
}

/// An integer in decimal.
pub open spec fn decimal_text(n: int) -> Seq<char> {
    if n < 0 {
        seq!['-'] + digits((-n) as nat)
    } else {
        digits(n as nat)
    }
}

fn digit_text(d: u64) -> (r: &'static str)
    requires
        d < 10,
    ensures
        r@ == seq![digit(d as int)],
{
    proof {
        reveal_strlit("0");
        reveal_strlit("1");
        reveal_strlit("2");
        reveal_strlit("3");
        reveal_strlit("4");
        reveal_strlit("5");
        reveal_strlit("6");
        reveal_strlit("7");
        reveal_strlit("8");
        reveal_strlit("9");
    }
    let r: &'static str = match d {
        0 => "0",
        1 => "1",
        2 => "2",
        3 => "3",
        4 => "4",
        5 => "5",
        6 => "6",
        7 => "7",
        8 => "8",
        _ => "9",
    };
    proof {
        assert(r@ =~= seq![digit(d as int)]);
    }
    r
}

fn digits_of(n: u64) -> (r: String)
    ensures
        r@ == digits(n as nat),
    decreases n,
{
    if n < 10 {
        digit_text(n).to_owned()
    } else {
        let mut r = digits_of(n / 10);
        r.append(digit_text(n % 10));
        proof {
            assert(r@ =~= digits((n / 10) as nat).push(digit((n % 10) as int)));
        }
        r
    }
}

/// An integer written in decimal.
pub fn decimal(n: i64) -> (r: String)
    ensures
        r@ == decimal_text(n as int),
{
    if n >= 0 {
        digits_of(n as u64)
    } else {
        let magnitude: u64 = (-(n + 1)) as u64 + 1;
        let mut r = "-".to_owned();
        r.append(digits_of(magnitude).as_str());
        proof {
            reveal_strlit("-");
            assert(r@ =~= decimal_text(n as int));
        }
        r
    }
}

/// Two texts one after the other.
pub fn join(a: &str, b: &str) -> (r: String)
    ensures
        r@ == a@ + b@,
{
    let mut r = a.to_owned();
    r.append(b);
    r
}

/// Names what [`quoted`] returns.
pub uninterp spec fn quoted_text(s: Seq<char>) -> Seq<char>;

/// A text between double quotes with its special characters escaped, as std's
/// `Debug` for `str` writes it. The contract gives that rendering a name: it
/// depends on the text alone.
#[verifier::external_body]
pub(crate) fn quoted(s: &str) -> (r: String)
    ensures
        r@ == quoted_text(s@),
{
    format!("{s:?}")
}

// --- laws --------------------------------------------------------------------------

/// The number that decimal digits stand for.
pub open spec fn value_of(s: Seq<char>) -> int
    decreases s.len(),
{
    if s.len() == 0 {
        0
    } else {
        10 * value_of(s.drop_last()) + (s.last() as int - '0' as int)
    }
}

proof fn lemma_digits(n: nat)
    ensures
        value_of(digits(n)) == n,
        digits(n).len() > 0,
        n > 0 ==> digits(n)[0] != '0',
        forall|i: int| 0 <= i < digits(n).len() ==> '0' <= #[trigger] digits(n)[i] <= '9',
    decreases n,
{
    let d = digits(n);
    if n < 10 {
        assert(d.drop_last() =~= Seq::<char>::empty());
        assert(d.last() == digit(n as int));
        assert(value_of(d.drop_last()) == 0);
    } else {
        assert(d.last() == digit((n % 10) as int));
        lemma_digits(n / 10);
        assert(d.drop_last() =~= digits(n / 10));
        assert(d[0] == digits(n / 10)[0]);
    }
}

/// Digits that stand for a number, the first of them not zero unless it is the only
/// one.
pub open spec fn is_decimal(d: Seq<char>, n: int) -> bool {
    &&& d.len() > 0
    &&& value_of(d) == n
    &&& d.len() > 1 ==> d[0] != '0'
    &&& forall|i: int| 0 <= i < d.len() ==> '0' <= #[trigger] d[i] <= '9'
}

/// A number in decimal reads back as the number: its magnitude, behind a minus sign
/// exactly if it is negative.
pub proof fn law_decimals_read_back(n: int)
    ensures
        n >= 0 ==> is_decimal(decimal_text(n), n),
        n < 0 ==> decimal_text(n)[0] == '-' && is_decimal(decimal_text(n).skip(1), -n),
{
    if n < 0 {
        lemma_digits((-n) as nat);
        assert(decimal_text(n).skip(1) =~= digits((-n) as nat));
    } else {
        lemma_digits(n as nat);
    }
}

/// A name is blank if it holds nothing but white space, by the code points that
/// Unicode gives that property.
pub proof fn law_blank_is_white_space_alone(s: Seq<char>)
    ensures
        is_blank(s) <==> forall|i: int|
            0 <= i < s.len() ==> {
                let c = #[trigger] s[i] as int;
                ||| 9 <= c <= 13
                ||| c == 32
                ||| c == 0x85
                ||| c == 0xA0
                ||| c == 0x1680
                ||| 0x2000 <= c <= 0x200A
                ||| c == 0x2028
                ||| c == 0x2029
                ||| c == 0x202F
                ||| c == 0x205F
                ||| c == 0x3000
            },
{
    assert forall|c: char| #[trigger] is_white_space(c) <==> {
        let n = c as int;
        ||| 9 <= n <= 13
        ||| n == 32
        ||| n == 0x85
        ||| n == 0xA0
        ||| n == 0x1680
        ||| 0x2000 <= n <= 0x200A
        ||| n == 0x2028
        ||| n == 0x2029
        ||| n == 0x202F
        ||| n == 0x205F
        ||| n == 0x3000
    } by {}
}

/// Of two texts the one with the smaller byte where they first differ stands first;
/// one that the other begins with stands before it.
pub proof fn law_texts_order_by_their_bytes(a: Seq<char>, b: Seq<char>, n: int)
    requires
        ({
            let x = vstd::utf8::encode_utf8(a);
            let y = vstd::utf8::encode_utf8(b);
            &&& 0 <= n <= x.len()
            &&& n < y.len()
            &&& x.take(n) == y.take(n)
            &&& n < x.len() ==> x[n] < y[n]
        }),
    ensures
        text_before(a, b),
        !text_before(b, a),
{
    lemma_first_difference(vstd::utf8::encode_utf8(a), vstd::utf8::encode_utf8(b), n);
    lemma_text_order(a, b, a);
}

proof fn lemma_first_difference(x: Seq<u8>, y: Seq<u8>, n: int)
    requires
        0 <= n <= x.len(),
        n < y.len(),
        x.take(n) == y.take(n),
        n < x.len() ==> x[n] < y[n],
    ensures
        bytes_before(x, y),
    decreases n,
{
    if n > 0 {
        assert(x.take(n)[0] == x[0] && y.take(n)[0] == y[0]);
        assert(x.len() > 0 && y.len() > 0);
        assert(x.drop_first().take(n - 1) =~= x.take(n).drop_first());
        assert(y.drop_first().take(n - 1) =~= y.take(n).drop_first());
        lemma_first_difference(x.drop_first(), y.drop_first(), n - 1);
    }
}

}
