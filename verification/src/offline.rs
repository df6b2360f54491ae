//! The offline-flag bootstrap decision.
//!
//! At process start the surrounding glue reads two fixed candidate config
//! files in order and hands their contents here; the first content that
//! could be read decides. The flag turns on exactly when that content,
//! trimmed of surrounding ASCII whitespace and lowercased, is one of the
//! truthy tokens `1`, `true`, `on`. The file reads and the once-only store
//! into the process-wide flag are the glue's; the decision itself is pure.

use vstd::prelude::*;

verus! {

/// ASCII whitespace, as trimming treats it.
pub open spec fn is_ws(b: u8) -> bool {
    b == 9 || b == 10 || b == 11 || b == 12 || b == 13 || b == 32
}

/// The bytes with leading whitespace removed.
pub open spec fn trim_front(s: Seq<u8>) -> Seq<u8>
    decreases s.len(),
{
    if s.len() > 0 && is_ws(s[0]) {
        trim_front(s.drop_first())
    } else {
        s
    }
}

/// The bytes with trailing whitespace removed.
pub open spec fn trim_back(s: Seq<u8>) -> Seq<u8>
    decreases s.len(),
{
    if s.len() > 0 && is_ws(s.last()) {
        trim_back(s.drop_last())
    } else {
        s
    }
}

/// The bytes with surrounding whitespace removed.
pub open spec fn trimmed(s: Seq<u8>) -> Seq<u8> {
    trim_back(trim_front(s))
}

/// ASCII lowercasing of one byte.
pub open spec fn lower_byte(b: u8) -> u8 {
    if 65 <= b && b <= 90 {
        (b + 32) as u8
    } else {
        b
    }
}

/// ASCII lowercasing.
pub open spec fn lowered(s: Seq<u8>) -> Seq<u8> {
    s.map_values(|b: u8| lower_byte(b))
}

/// The token `1`.
pub open spec fn token_one() -> Seq<u8> {
    seq![49u8]
}

/// The token `true`.
pub open spec fn token_true() -> Seq<u8> {
    seq![116u8, 114u8, 117u8, 101u8]
}

/// The token `on`.
pub open spec fn token_on() -> Seq<u8> {
    seq![111u8, 110u8]
}

/// Whether a config content switches the flag on: trimmed and lowercased it
/// is `1`, `true` or `on`.
pub open spec fn truthy(s: Seq<u8>) -> bool {
    lowered(trimmed(s)) == token_one() || lowered(trimmed(s)) == token_true() || lowered(trimmed(s))
        == token_on()
}

/// Skipping known whitespace does not change the front trim.
proof fn lemma_trim_front_skip(s: Seq<u8>, lo: int)
    requires
        0 <= lo <= s.len(),
        forall|j: int| 0 <= j < lo ==> is_ws(s[j]),
    ensures
        trim_front(s) == trim_front(s.skip(lo)),
    decreases lo,
{
    if lo > 0 {
        assert(is_ws(s[0]));
        assert(s.drop_first() =~= s.skip(1));
        assert(s.drop_first().skip(lo - 1) =~= s.skip(lo));
        assert(forall|j: int| 0 <= j < lo - 1 ==> is_ws(#[trigger] s.drop_first()[j]));
        lemma_trim_front_skip(s.drop_first(), lo - 1);
    } else {
        assert(s.skip(0) =~= s);
    }
}

/// Dropping known trailing whitespace does not change the back trim.
proof fn lemma_trim_back_take(s: Seq<u8>, hi: int)
    requires
        0 <= hi <= s.len(),
        forall|j: int| hi <= j < s.len() ==> is_ws(s[j]),
    ensures
        trim_back(s) == trim_back(s.take(hi)),
    decreases s.len() - hi,
{
    if hi < s.len() {
        assert(is_ws(s[s.len() - 1]));
        assert(s.drop_last() =~= s.take(s.len() - 1));
        assert(forall|j: int| hi <= j < s.drop_last().len() ==> is_ws(#[trigger] s.drop_last()[j]));
        lemma_trim_back_take(s.drop_last(), hi);
        assert(s.drop_last().take(hi) =~= s.take(hi));
    } else {
        assert(s.take(hi) =~= s);
    }
}

/// Tests one byte for ASCII whitespace.
fn is_ws_ex(b: u8) -> (r: bool)
    ensures
        r == is_ws(b),
{
    b == 9 || b == 10 || b == 11 || b == 12 || b == 13 || b == 32
}

/// Lowercases one ASCII byte.
fn lower_ex(b: u8) -> (r: u8)
    ensures
        r == lower_byte(b),
{
    if 65 <= b && b <= 90 {
        b + 32
    } else {
        b
    }
}

/// Whether a config content, trimmed and lowercased, is a truthy token.
pub fn is_truthy(content: &[u8]) -> (r: bool)
    ensures
        r == truthy(content@),
{
    let n = content.len();
    let mut lo: usize = 0;
    while lo < n && is_ws_ex(content[lo])
        invariant
            lo <= n,
            n == content@.len(),
            forall|j: int| 0 <= j < lo ==> is_ws(content@[j]),
        decreases n - lo,
    {
        lo += 1;
    }
    let mut hi: usize = n;
    while hi > lo && is_ws_ex(content[hi - 1])
        invariant
            lo <= hi <= n,
            n == content@.len(),
            forall|j: int| hi <= j < n ==> is_ws(content@[j]),
        decreases hi,
    {
        hi -= 1;
    }
    let ghost tr = trimmed(content@);
    proof {
        lemma_trim_front_skip(content@, lo as int);
        let sk = content@.skip(lo as int);
        assert(trim_front(sk) == sk) by {
            if lo < n {
                assert(sk[0] == content@[lo as int]);
            }
        }
        assert(forall|j: int| hi - lo <= j < sk.len() ==> is_ws(#[trigger] sk[j]));
        lemma_trim_back_take(sk, hi - lo);
        let t = sk.take(hi - lo);
        assert(trim_back(t) == t) by {
            if hi > lo {
                assert(t[t.len() - 1] == content@[hi - 1]);
            }
        }
        assert(tr == t);
        assert(t =~= content@.subrange(lo as int, hi as int));
        assert(lowered(tr).len() == hi - lo);
        assert(forall|j: int|
            0 <= j < hi - lo ==> #[trigger] lowered(tr)[j] == lower_byte(content@[lo + j]));
    }
    let len = hi - lo;
    if len == 1 {
        if lower_ex(content[lo]) == 49 {
            proof {
                assert(lowered(tr) =~= token_one());
            }
            true
        } else {
            proof {
                assert(lowered(tr)[0] != token_one()[0]);
            }
            false
        }
    } else if len == 4 {
        if lower_ex(content[lo]) == 116 && lower_ex(content[lo + 1]) == 114 && lower_ex(
            content[lo + 2],
        ) == 117 && lower_ex(content[lo + 3]) == 101 {
            proof {
                assert(lowered(tr) =~= token_true());
            }
            true
        } else {
            proof {
                if lowered(tr) == token_true() {
                    assert(lowered(tr)[0] == 116 && lowered(tr)[1] == 114 && lowered(tr)[2] == 117
                        && lowered(tr)[3] == 101);
                }
            }
            false
        }
    } else if len == 2 {
        if lower_ex(content[lo]) == 111 && lower_ex(content[lo + 1]) == 110 {
            proof {
                assert(lowered(tr) =~= token_on());
            }
            true
        } else {
            proof {
                if lowered(tr) == token_on() {
                    assert(lowered(tr)[0] == 111 && lowered(tr)[1] == 110);
                }
            }
            false
        }
    } else {
        false
    }
}

/// The view of an optional file read.
pub open spec fn read_view(o: Option<Vec<u8>>) -> Option<Seq<u8>> {
    match o {
        Some(v) => Some(v@),
        None => None,
    }
}

/// What the bootstrap decides: of the two candidate config files, read in
/// their fixed order, the first whose content could be read decides; the
/// flag turns on exactly when that content is truthy. With neither readable
/// the flag stays off.
pub open spec fn offline_spec(first: Option<Seq<u8>>, second: Option<Seq<u8>>) -> bool {
    match first {
        Some(c) => truthy(c),
        None => match second {
            Some(c) => truthy(c),
            None => false,
        },
    }
}

/// Decides the process-wide offline flag from the two candidate reads.
pub fn offline_flag(first: Option<Vec<u8>>, second: Option<Vec<u8>>) -> (r: bool)
    ensures
        r == offline_spec(read_view(first), read_view(second)),
{
    match first {
        Some(c) => is_truthy(c.as_slice()),
        None => match second {
            Some(c) => is_truthy(c.as_slice()),
            None => false,
        },
    }
}

} // verus!
