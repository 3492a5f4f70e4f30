//! What the texts say, and how they are read back.
use vstd::prelude::*;

use crate::progress::{expired_line, progress_line, sending_status, waiting_status};
use crate::text::{decimal, http_to_ws, padded};

verus! {

/// The number that a text of decimal digits stands for.
pub open spec fn value_of(s: Seq<char>) -> nat
    decreases s.len(),
{
    if s.len() == 0 {
        0
    } else {
        (10 * value_of(s.drop_last()) + (s.last() as int - '0' as int)) as nat
    }
}

/// A number in decimal is a text of digits that reads as the number, and it starts with a zero only
/// if it is a zero.
pub proof fn law_decimal_reads_back(n: nat)
    ensures
        value_of(decimal(n)) == n,
        decimal(n).len() > 0,
        forall|i: int|
            0 <= i < decimal(n).len() ==> '0' as int <= #[trigger] decimal(n)[i] as int
                && decimal(n)[i] as int <= '9' as int,
        decimal(n)[0] == '0' ==> decimal(n) == seq!['0'],
    decreases n,
{
    let s = decimal(n);
    if n < 10 {
        assert(s.drop_last() =~= Seq::empty());
        assert(value_of(s.drop_last()) == 0);
        assert(s.last() as int == 48 + n);
        if s[0] == '0' {
            assert(s =~= seq!['0']);
        }
    } else {
        law_decimal_reads_back(n / 10);
        let less = decimal(n / 10);
        assert(s.drop_last() =~= less);
        assert(s.last() as int == 48 + n % 10);
        assert(s[0] == less[0]);
        if less[0] == '0' {
            assert(value_of(less.drop_last()) == 0) by {
                assert(less.drop_last() =~= Seq::empty());
            }
            assert(less.last() == '0');
            assert(value_of(less) == 0);
        }
        assert forall|i: int| 0 <= i < s.len() implies '0' as int <= #[trigger] s[i] as int
            && s[i] as int <= '9' as int by {
            if i < less.len() {
                assert(s[i] == less[i]);
            }
        }
    }
}

/// A text that is filled up starts with the text, goes on with spaces, and has the width, unless
/// the text is longer.
pub proof fn law_padded(s: Seq<char>, width: nat)
    ensures
        s.is_prefix_of(padded(s, width)),
        s.len() <= width ==> padded(s, width).len() == width,
        s.len() >= width ==> padded(s, width) == s,
        forall|i: int|
            s.len() <= i < padded(s, width).len() ==> #[trigger] padded(s, width)[i] == ' ',
{
}

/// The letters `http` stand at a position of the text.
pub open spec fn http_stands(s: Seq<char>, k: int) -> bool {
    &&& 0 <= k <= s.len() - 4
    &&& s[k] == 'h' && s[k + 1] == 't' && s[k + 2] == 't' && s[k + 3] == 'p'
}

/// A text without `http` stays as it is.
pub proof fn law_no_http(s: Seq<char>)
    requires
        forall|k: int| !#[trigger] http_stands(s, k),
    ensures
        http_to_ws(s) == s,
    decreases s.len(),
{
    if s.len() >= 4 {
        let rest = s.skip(1);
        assert(!http_stands(s, 0));
        if s.take(4) == seq!['h', 't', 't', 'p'] {
            assert(s[0] == s.take(4)[0] && s[1] == s.take(4)[1] && s[2] == s.take(4)[2] && s[3]
                == s.take(4)[3]);
        }
        assert forall|k: int| !#[trigger] http_stands(rest, k) by {
            assert(!http_stands(s, k + 1));
        }
        law_no_http(rest);
        assert(seq![s[0]] + rest =~= s);
    }
}

/// The first `http` of a text becomes `ws`; what stands before it is kept, and what stands behind
/// it is treated alike.
pub proof fn law_first_http(s: Seq<char>, k: int)
    requires
        http_stands(s, k),
        forall|j: int| 0 <= j < k ==> !#[trigger] http_stands(s, j),
    ensures
        http_to_ws(s) == s.take(k) + seq!['w', 's'] + http_to_ws(s.skip(k + 4)),
    decreases k,
{
    if k == 0 {
        assert(s.take(4) =~= seq!['h', 't', 't', 'p']);
        assert(s.take(0) + seq!['w', 's'] =~= seq!['w', 's']);
    } else {
        let rest = s.skip(1);
        assert(!http_stands(s, 0));
        if s.take(4) == seq!['h', 't', 't', 'p'] {
            assert(s[0] == s.take(4)[0] && s[1] == s.take(4)[1] && s[2] == s.take(4)[2] && s[3]
                == s.take(4)[3]);
        }
        assert forall|j: int| 0 <= j < k - 1 implies !#[trigger] http_stands(rest, j) by {
            assert(!http_stands(s, j + 1));
        }
        law_first_http(rest, k - 1);
        assert(rest.skip(k + 3) =~= s.skip(k + 4));
        assert(seq![s[0]] + (rest.take(k - 1) + seq!['w', 's'] + http_to_ws(s.skip(k + 4)))
            =~= s.take(k) + seq!['w', 's'] + http_to_ws(s.skip(k + 4)));
    }
}

/// The line beside the percentage shows the status, filled up to 40 characters, and, if the block
/// height is to be shown, the height and how many blocks are left until the last one, none if it
/// has passed.
pub proof fn law_progress_is_told(block_height: Option<u64>, last_valid: u64, status: Seq<char>)
    ensures
        progress_line(block_height, last_valid, status) == (if status.len() < 40 {
            status + Seq::new((40 - status.len()) as nat, |i: int| ' ')
        } else {
            status
        }) + match block_height {
            Some(h) => " [block height "@ + decimal(h as nat) + "; re-sign in "@ + decimal(
                if h <= last_valid {
                    (last_valid - h) as nat
                } else {
                    0
                },
            ) + " blocks]"@,
            None => Seq::empty(),
        },
{
}

/// What is told while transactions are sent and blocks are waited for, and when they have to be
/// signed again.
pub proof fn law_statuses_are_told(a: nat, b: nat)
    ensures
        sending_status(a, b) == "Sending "@ + decimal(a) + "/"@ + decimal(b) + " transactions"@,
        waiting_status(a) == "Waiting for next block, "@ + decimal(a) + " pending..."@,
        expired_line(a) == "Blockhash expired. "@ + decimal(a) + " retries remaining"@,
{
}

} // verus!
