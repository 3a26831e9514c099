use vstd::prelude::*;
use vstd::utf8::encode_utf8;

verus! {

/// `a` and `b` agree before position `k`, and `a` is the smaller one from there on:
/// either `a` ends at `k` while `b` goes on, or `a[k] < b[k]`.
pub open spec fn smaller_at(a: Seq<u8>, b: Seq<u8>, k: int) -> bool {
    &&& 0 <= k <= a.len()
    &&& k <= b.len()
    &&& forall|j: int| 0 <= j < k ==> a[j] == b[j]
    &&& ((k == a.len() && k < b.len()) || (k < a.len() && k < b.len() && a[k] < b[k]))
}

/// Lexicographic order on byte strings, as a database compares text by its bytes.
pub open spec fn text_lt(a: Seq<u8>, b: Seq<u8>) -> bool {
    exists|k: int| smaller_at(a, b, k)
}

/// The bytes of a string in UTF-8.
pub open spec fn key_bytes(s: Seq<char>) -> Seq<u8> {
    encode_utf8(s)
}

pub proof fn lemma_text_lt_transitive(a: Seq<u8>, b: Seq<u8>, c: Seq<u8>)
    requires
        text_lt(a, b),
        text_lt(b, c),
    ensures
        text_lt(a, c),
{
    let k1 = choose|k: int| smaller_at(a, b, k);
    let k2 = choose|k: int| smaller_at(b, c, k);
    let k = if k1 < k2 { k1 } else { k2 };
    assert(smaller_at(a, c, k));
}

pub proof fn lemma_text_lt_irreflexive(a: Seq<u8>)
    ensures
        !text_lt(a, a),
{
    if text_lt(a, a) {
        let k = choose|k: int| smaller_at(a, a, k);
        assert(false);
    }
}

proof fn lemma_text_total_from(a: Seq<u8>, b: Seq<u8>, i: int)
    requires
        0 <= i <= a.len(),
        i <= b.len(),
        forall|j: int| 0 <= j < i ==> a[j] == b[j],
    ensures
        a =~= b || text_lt(a, b) || text_lt(b, a),
    decreases a.len() - i,
{
    if i == a.len() && i == b.len() {
        assert(a =~= b);
    } else if i == a.len() {
        assert(smaller_at(a, b, i));
    } else if i == b.len() {
        assert(smaller_at(b, a, i));
    } else if a[i] < b[i] {
        assert(smaller_at(a, b, i));
    } else if b[i] < a[i] {
        assert(smaller_at(b, a, i));
    } else {
        lemma_text_total_from(a, b, i + 1);
    }
}

pub proof fn lemma_text_total(a: Seq<u8>, b: Seq<u8>)
    ensures
        a =~= b || text_lt(a, b) || text_lt(b, a),
{
    lemma_text_total_from(a, b, 0);
}

/// Whether `a` sorts before `b` by bytes.
pub fn bytes_lt(a: &[u8], b: &[u8]) -> (r: bool)
    ensures
        r == text_lt(a@, b@),
{
    let mut i: usize = 0;
    while i < a.len() && i < b.len()
        invariant
            0 <= i <= a@.len(),
            i <= b@.len(),
            forall|j: int| 0 <= j < i ==> a@[j] == b@[j],
        decreases a@.len() - i,
    {
        if a[i] != b[i] {
            let r = a[i] < b[i];
            proof {
                if r {
                    assert(smaller_at(a@, b@, i as int));
                } else {
                    assert forall|k: int| !smaller_at(a@, b@, k) by {
                        if smaller_at(a@, b@, k) {
                            if k < i {
                            } else if k > i {
                                assert(a@[i as int] == b@[i as int]);
                            }
                        }
                    }
                }
            }
            return r;
        }
        i += 1;
    }
    let r = a.len() < b.len();
    proof {
        if r {
            assert(smaller_at(a@, b@, i as int));
        } else {
            assert forall|k: int| !smaller_at(a@, b@, k) by {
                if smaller_at(a@, b@, k) {
                    if k < i {
                    } else if k > i {
                    }
                }
            }
        }
    }
    r
}

} // verus!
