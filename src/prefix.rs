//! Isolating the payload of a prefixed identifier.

use vstd::prelude::*;
use vstd::string::*;

verus! {

/// The separator between a prefix and the payload.
pub const DELIMITER: char = '_';

/// The part of `s` after its last delimiter, or all of `s` when it has none.
pub open spec fn last_segment(s: Seq<char>) -> Seq<char>
    decreases s.len(),
{
    if s.len() == 0 {
        s
    } else if s.last() == DELIMITER {
        Seq::empty()
    } else {
        last_segment(s.drop_last()).push(s.last())
    }
}

/// The last segment holds no delimiter.
pub proof fn lemma_last_segment_plain(s: Seq<char>)
    ensures
        !last_segment(s).contains(DELIMITER),
    decreases s.len(),
{
    if s.len() > 0 && s.last() != DELIMITER {
        lemma_last_segment_plain(s.drop_last());
        let r = last_segment(s.drop_last());
        assert(forall|i: int| 0 <= i < r.len() ==> r.push(s.last())[i] == r[i]);
    }
}

/// A string without a delimiter is its own last segment.
pub proof fn lemma_last_segment_of_plain(s: Seq<char>)
    requires
        !s.contains(DELIMITER),
    ensures
        last_segment(s) == s,
    decreases s.len(),
{
    if s.len() > 0 {
        assert(s.last() == s[s.len() - 1]);
        assert(!s.drop_last().contains(DELIMITER)) by {
            if s.drop_last().contains(DELIMITER) {
                let i = choose|i: int| 0 <= i < s.len() - 1 && s.drop_last()[i] == DELIMITER;
                assert(s[i] == DELIMITER);
            }
        }
        lemma_last_segment_of_plain(s.drop_last());
        assert(s.drop_last().push(s.last()) =~= s);
    }
}

/// What follows the last delimiter is the last segment.
pub proof fn lemma_last_segment_after(head: Seq<char>, tail: Seq<char>)
    requires
        !tail.contains(DELIMITER),
    ensures
        last_segment(head + seq![DELIMITER] + tail) == tail,
    decreases tail.len(),
{
    let s = head + seq![DELIMITER] + tail;
    if tail.len() == 0 {
        assert(s.last() == DELIMITER);
    } else {
        assert(tail.last() == tail[tail.len() - 1]);
        assert(!tail.drop_last().contains(DELIMITER)) by {
            if tail.drop_last().contains(DELIMITER) {
                let i = choose|i: int| 0 <= i < tail.len() - 1 && tail.drop_last()[i] == DELIMITER;
                assert(tail[i] == DELIMITER);
            }
        }
        lemma_last_segment_after(head, tail.drop_last());
        assert(s.drop_last() =~= head + seq![DELIMITER] + tail.drop_last());
        assert(s.last() == tail.last());
        assert(tail.drop_last().push(tail.last()) =~= tail);
    }
}

/// Stripping is idempotent: stripping what was already stripped changes nothing.
pub proof fn lemma_unprefix_idempotent(s: Seq<char>)
    ensures
        last_segment(last_segment(s)) == last_segment(s),
{
    lemma_last_segment_plain(s);
    lemma_last_segment_of_plain(last_segment(s));
}

/// Returns the segment of `value` after its last `_`, or `value` itself when it
/// holds no `_`. Whatever stands before the last `_` is discarded unchecked.
pub fn unprefix_id(value: &str) -> (r: &str)
    ensures
        r@ == last_segment(value@),
{
    let n = value.unicode_len();
    let mut start: usize = 0;
    let mut i: usize = 0;
    while i < n
        invariant
            n == value@.len(),
            start <= i <= n,
            last_segment(value@.take(i as int)) == value@.subrange(start as int, i as int),
        decreases n - i,
    {
        let c = value.get_char(i);
        proof {
            let t = value@.take(i as int + 1);
            assert(t.drop_last() =~= value@.take(i as int));
            assert(t.last() == c);
        }
        if c == DELIMITER {
            start = i + 1;
        }
        i = i + 1;
        proof {
            assert(value@.subrange(start as int, i as int) =~= if start == i {
                Seq::empty()
            } else {
                value@.subrange(start as int, i as int - 1).push(c)
            });
        }
    }
    assert(value@.take(n as int) =~= value@);
    value.substring_char(start, n)
}

} // verus!
