//! Small pieces of text.
use vstd::prelude::*;

verus! {

/// Tells whether two texts are the same.
pub fn same_text(a: &str, b: &str) -> (r: bool)
    ensures
        r == (a@ == b@),
{
    let a: String = a.to_owned();
    let b: String = b.to_owned();
    a == b
}

/// The decimal digit for a number below 10.
pub open spec fn digit(n: nat) -> char
    recommends
        n < 10,
{
    (48 + n) as char
}

/// A number in decimal, without leading zeros.
pub open spec fn decimal(n: nat) -> Seq<char>
    decreases n,
{
    if n < 10 {
        seq![digit(n)]
    } else {
        decimal(n / 10).push(digit(n % 10))
    }
}

/// The decimal digit for a number below 10, as text.
fn digit_text(n: u64) -> (r: &'static str)
    requires
        n < 10,
    ensures
        r@ == seq![digit(n as nat)],
{
    proof {
        reveal_strlit("0");
        reveal_strlit("1");
        reveal_strlit("2");
        reveal_strlit("3");
        reveal_strlit("4");
        reveal_strlit("5");
        reveal_strlit("6");
        reveal_strlit("7");
        reveal_strlit("8");
        reveal_strlit("9");
    }
    let r: &'static str = if n == 0 {
        "0"
    } else if n == 1 {
        "1"
    } else if n == 2 {
        "2"
    } else if n == 3 {
        "3"
    } else if n == 4 {
        "4"
    } else if n == 5 {
        "5"
    } else if n == 6 {
        "6"
    } else if n == 7 {
        "7"
    } else if n == 8 {
        "8"
    } else {
        "9"
    };
    assert(r@ =~= seq![digit(n as nat)]);
    r
}

/// Writes a number in decimal.
pub fn decimal_text(n: u64) -> (r: String)
    ensures
        r@ == decimal(n as nat),
    decreases n,
{
    if n < 10 {
        digit_text(n).to_owned()
    } else {
        let mut r = decimal_text(n / 10);
        r.append(digit_text(n % 10));
        assert(r@ =~= decimal((n / 10) as nat).push(digit((n % 10) as nat)));
        r
    }
}

/// A text filled up with spaces on the right until it has `width` characters.
pub open spec fn padded(s: Seq<char>, width: nat) -> Seq<char> {
    if s.len() < width {
        s + Seq::new((width - s.len()) as nat, |i: int| ' ')
    } else {
        s
    }
}

/// Fills a text up with spaces on the right until it has `width` characters.
pub fn pad(s: &str, width: usize) -> (r: String)
    ensures
        r@ == padded(s@, width as nat),
{
    proof {
        reveal_strlit(" ");
    }
    let mut r: String = s.to_owned();
    let mut n: usize = s.unicode_len();
    while n < width
        invariant
            r@ == padded(s@, n as nat),
            s@.len() <= n,
            n <= width || n == s@.len(),
            " "@ =~= seq![' '],
        decreases width - n,
    {
        r.append(" ");
        n = n + 1;
        assert(r@ =~= padded(s@, n as nat));
    }
    r
}

/// The text with every `http` replaced by `ws`, from the left.
pub open spec fn http_to_ws(s: Seq<char>) -> Seq<char>
    decreases s.len(),
{
    if s.len() < 4 {
        s
    } else if s.take(4) == seq!['h', 't', 't', 'p'] {
        seq!['w', 's'] + http_to_ws(s.skip(4))
    } else {
        seq![s[0]] + http_to_ws(s.skip(1))
    }
}

/// Tells whether `http` stands at a position of a text.
fn http_at(s: &str, i: usize) -> (r: bool)
    requires
        i + 4 <= s@.len() <= usize::MAX,
    ensures
        r == (s@.skip(i as int).take(4) == seq!['h', 't', 't', 'p']),
{
    let r = s.get_char(i) == 'h' && s.get_char(i + 1) == 't' && s.get_char(i + 2) == 't'
        && s.get_char(i + 3) == 'p';
    let ghost part = s@.skip(i as int).take(4);
    proof {
        assert(part[0] == s@[i as int]);
        assert(part[1] == s@[i + 1]);
        assert(part[2] == s@[i + 2]);
        assert(part[3] == s@[i + 3]);
        if r {
            assert(part =~= seq!['h', 't', 't', 'p']);
        }
    }
    r
}

/// Replaces every `http` of a text by `ws`, from the left.
pub fn replace_http(s: &str) -> (r: String)
    ensures
        r@ == http_to_ws(s@),
{
    let n: usize = s.unicode_len();
    let mut r: String = String::new();
    let mut i: usize = 0;
    proof {
        reveal_strlit("ws");
        assert("ws"@ =~= seq!['w', 's']);
        assert(s@.skip(0) =~= s@);
    }
    while i < n
        invariant
            i <= n,
            n == s@.len(),
            "ws"@ == seq!['w', 's'],
            r@ + http_to_ws(s@.skip(i as int)) =~= http_to_ws(s@),
        decreases n - i,
    {
        let ghost rest = s@.skip(i as int);
        let ghost before = r@;
        if n - i < 4 {
            r.append(s.substring_char(i, n));
            proof {
                assert(s@.subrange(i as int, n as int) =~= rest);
                assert(s@.skip(n as int) =~= Seq::empty());
                assert(r@ =~= before + rest);
            }
            i = n;
        } else if http_at(s, i) {
            r.append("ws");
            i = i + 4;
            proof {
                assert(rest.skip(4) =~= s@.skip(i as int));
                assert(before + (seq!['w', 's'] + http_to_ws(rest.skip(4))) =~= r@ + http_to_ws(
                    s@.skip(i as int),
                ));
            }
        } else {
            r.append(s.substring_char(i, i + 1));
            i = i + 1;
            proof {
                assert(s@.subrange(i - 1, i as int) =~= seq![rest[0]]);
                assert(rest.skip(1) =~= s@.skip(i as int));
                assert(before + (seq![rest[0]] + http_to_ws(rest.skip(1))) =~= r@ + http_to_ws(
                    s@.skip(i as int),
                ));
            }
        }
    }
    assert(s@.skip(n as int) =~= Seq::empty());
    assert(r@ =~= http_to_ws(s@));
    r
}

} // verus!
