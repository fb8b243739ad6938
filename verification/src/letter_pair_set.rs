use vstd::prelude::*;
use vstd::string::StringExecFns;

use crate::collections::{number_set_items, NumberSet};
use crate::letter::{letter_char, Letter};
use crate::letter_pair::LetterPair;
use crate::text::push_char;

verus! {

/// A pair as one number: the smaller letter times the alphabet size plus the
/// larger letter. Pairs in increasing order of this number are in dictionary
/// order.
pub open spec fn pair_code(p: LetterPair) -> u32 {
    (p.first() * 27 + p.second()) as u32
}

/// Some pair has code `c`.
pub open spec fn has_code(pairs: Seq<LetterPair>, c: u32) -> bool {
    exists|i: int| 0 <= i < pairs.len() && #[trigger] pair_code(pairs[i]) == c
}

/// The pairs as two-letter strings separated by commas.
pub open spec fn pairs_text(pairs: Seq<LetterPair>) -> Seq<char>
    decreases pairs.len(),
{
    if pairs.len() == 0 {
        Seq::empty()
    } else {
        let t = seq![letter_char(pairs.last().first()), letter_char(pairs.last().second())];
        if pairs.len() == 1 {
            t
        } else {
            pairs_text(pairs.drop_last()).push(',') + t
        }
    }
}

/// Numbers in strictly increasing order.
fn sort_distinct(v: &Vec<u32>) -> (r: Vec<u32>)
    requires
        v@.no_duplicates(),
    ensures
        r@.to_set() == v@.to_set(),
        r@.len() == v@.len(),
        forall|i: int, j: int| 0 <= i < j < r@.len() ==> r@[i] < r@[j],
{
    let mut sorted: Vec<u32> = Vec::new();
    let mut i: usize = 0;
    while i < v.len()
        invariant
            i <= v@.len(),
            v@.no_duplicates(),
            sorted@.to_set() == v@.take(i as int).to_set(),
            sorted@.len() == i,
            forall|a: int, b: int| 0 <= a < b < sorted@.len() ==> sorted@[a] < sorted@[b],
        decreases v@.len() - i,
    {
        let x = v[i];
        let mut p: usize = 0;
        while p < sorted.len() && sorted[p] < x
            invariant
                p <= sorted@.len(),
                forall|q: int| 0 <= q < p ==> #[trigger] sorted@[q] < x,
            decreases sorted@.len() - p,
        {
            p = p + 1;
        }
        let ghost before = sorted@;
        proof {
            assert(!before.contains(x)) by {
                if before.contains(x) {
                    assert(before.to_set().contains(x));
                    assert(v@.take(i as int).to_set().contains(x));
                    let k = choose|k: int| 0 <= k < i && #[trigger] v@.take(i as int)[k] == x;
                    assert(v@[k] == v@[i as int]);
                }
            }
        }
        sorted.insert(p, x);
        proof {
            assert(sorted@ =~= before.insert(p as int, x));
            assert(v@.take(i + 1) =~= v@.take(i as int).push(x));
            assert forall|y: u32| sorted@.to_set().contains(y) <==> v@.take(i + 1).to_set().contains(y) by {
                assert(sorted@.to_set().contains(y) <==> sorted@.contains(y));
                assert(before.to_set().contains(y) <==> before.contains(y));
                assert(v@.take(i + 1).to_set().contains(y) <==> v@.take(i + 1).contains(y));
                assert(v@.take(i as int).to_set().contains(y) <==> v@.take(i as int).contains(y));
                if sorted@.contains(y) {
                    let k = choose|k: int| 0 <= k < sorted@.len() && #[trigger] sorted@[k] == y;
                    if k < p {
                        assert(before[k] == y);
                    } else if k > p {
                        assert(before[k - 1] == y);
                    }
                    if y != x {
                        assert(before.contains(y));
                        let m = choose|m: int| 0 <= m < i && #[trigger] v@.take(i as int)[m] == y;
                        assert(v@.take(i + 1)[m] == y);
                    } else {
                        assert(v@.take(i + 1)[i as int] == y);
                    }
                }
                if v@.take(i + 1).contains(y) {
                    let m = choose|m: int| 0 <= m < i + 1 && #[trigger] v@.take(i + 1)[m] == y;
                    if m < i {
                        assert(v@.take(i as int)[m] == y);
                        assert(before.contains(y));
                        let k = choose|k: int| 0 <= k < before.len() && #[trigger] before[k] == y;
                        if k < p {
                            assert(sorted@[k] == y);
                        } else {
                            assert(sorted@[k + 1] == y);
                        }
                    } else {
                        assert(sorted@[p as int] == y);
                    }
                }
            }
            assert(sorted@.to_set() =~= v@.take(i + 1).to_set());
            assert forall|a: int, b: int| 0 <= a < b < sorted@.len() implies sorted@[a] < sorted@[b] by {
                if p < before.len() {
                    assert(before[p as int] != x);
                    assert(before[p as int] >= x);
                }
                if b < p {
                } else if b == p {
                } else if a == p {
                    assert(sorted@[b] == before[b - 1]);
                    assert(before[b - 1] >= before[p as int]);
                } else if a < p {
                    assert(sorted@[b] == before[b - 1]);
                    if p < before.len() {
                        assert(before[b - 1] >= before[p as int]);
                    }
                } else {
                    assert(sorted@[a] == before[a - 1]);
                    assert(sorted@[b] == before[b - 1]);
                }
            }
        }
        i = i + 1;
    }
    proof {
        assert(v@.take(v@.len() as int) =~= v@);
    }
    sorted
}

/// Letter pairs, each once, in dictionary order.
#[derive(Hash)]
pub struct LetterPairSet(Vec<LetterPair>);

impl View for LetterPairSet {
    type V = Seq<LetterPair>;

    closed spec fn view(&self) -> Seq<LetterPair> {
        self.0@
    }
}

impl LetterPairSet {
    /// The different pairs among `pairs`, in dictionary order.
    pub fn new(pairs: &Vec<LetterPair>) -> (r: LetterPairSet)
        ensures
            forall|i: int, j: int| 0 <= i < j < r@.len() ==> pair_code(r@[i]) < pair_code(r@[j]),
            forall|c: u32| #[trigger] has_code(r@, c) <==> has_code(pairs@, c),
    {
        let mut set = NumberSet::new();
        let mut i: usize = 0;
        while i < pairs.len()
            invariant
                i <= pairs@.len(),
                forall|c: u32| number_set_items(set).contains(c) <==> exists|k: int| 0 <= k < i && #[trigger] pair_code(pairs@[k]) == c,
                forall|k: int| 0 <= k < i ==> (#[trigger] pairs@[k]).first() < pairs@[k].second() < 27,
            decreases pairs@.len() - i,
        {
            let p = pairs[i];
            p.lemma_ordered();
            let code = p.first_letter().to_u32() * 27 + p.second_letter().to_u32();
            set.insert(code);
            proof {
                assert(code == pair_code(pairs@[i as int]));
            }
            i = i + 1;
        }
        let codes = set.to_vec();
        let sorted = sort_distinct(&codes);
        let mut result: Vec<LetterPair> = Vec::new();
        let mut k: usize = 0;
        while k < sorted.len()
            invariant
                k <= sorted@.len(),
                sorted@.to_set() == number_set_items(set),
                forall|c: u32| number_set_items(set).contains(c) <==> exists|m: int| 0 <= m < pairs@.len() && #[trigger] pair_code(pairs@[m]) == c,
                forall|a: int, b: int| 0 <= a < b < sorted@.len() ==> sorted@[a] < sorted@[b],
                result@.len() == k,
                forall|a: int| 0 <= a < k ==> #[trigger] pair_code(result@[a]) == sorted@[a],
                forall|m: int| 0 <= m < pairs@.len() ==> (#[trigger] pairs@[m]).first() < pairs@[m].second() < 27,
            decreases sorted@.len() - k,
        {
            let c = sorted[k];
            proof {
                assert(sorted@.to_set().contains(c));
                let m = choose|m: int| 0 <= m < pairs@.len() && #[trigger] pair_code(pairs@[m]) == c;
                let q = pairs@[m];
                lemma_code_parts(q.first(), q.second());
            }
            let f = c / 27;
            let g = c % 27;
            let fa = Letter::from_u32(f).unwrap();
            let ga = Letter::from_u32(g).unwrap();
            let p = LetterPair::new(fa, ga);
            p.lemma_ordered();
            result.push(p);
            proof {
                assert(pair_code(p) == c);
            }
            k = k + 1;
        }
        proof {
            assert forall|c: u32| #[trigger] has_code(result@, c) <==> has_code(pairs@, c) by {
                if exists|i: int| 0 <= i < result@.len() && #[trigger] pair_code(result@[i]) == c {
                    let i = choose|i: int| 0 <= i < result@.len() && #[trigger] pair_code(result@[i]) == c;
                    assert(sorted@[i] == c);
                    assert(sorted@.to_set().contains(c));
                }
                if exists|m: int| 0 <= m < pairs@.len() && #[trigger] pair_code(pairs@[m]) == c {
                    assert(number_set_items(set).contains(c));
                    assert(sorted@.to_set().contains(c));
                    let i = choose|i: int| 0 <= i < sorted@.len() && sorted@[i] == c;
                    assert(pair_code(result@[i]) == c);
                }
            }
        }
        LetterPairSet(result)
    }

    pub fn is_empty(&self) -> (r: bool)
        ensures
            r == (self@.len() == 0),
    {
        self.0.len() == 0
    }

    /// The pairs as two-letter strings separated by commas, such as `ab,cd`.
    pub fn to_string(&self) -> (r: String)
        ensures
            r@ == pairs_text(self@),
    {
        let mut result = String::new();
        let mut i: usize = 0;
        while i < self.0.len()
            invariant
                i <= self@.len(),
                self@ == self.0@,
                result@ == pairs_text(self@.take(i as int)),
            decreases self@.len() - i,
        {
            let text = self.0[i].to_string();
            proof {
                assert(self@.take(i + 1).drop_last() =~= self@.take(i as int));
            }
            if i > 0 {
                push_char(&mut result, ',');
            }
            result.append(text.as_str());
            proof {
                if i == 0 {
                    assert(result@ =~= pairs_text(self@.take(1)));
                }
            }
            i = i + 1;
        }
        proof {
            assert(self@.take(self@.len() as int) =~= self@);
        }
        result
    }
}

/// The code of two letters gives them back by division.
proof fn lemma_code_parts(f: u32, g: u32)
    requires
        f < g < 27,
    ensures
        (f * 27 + g) / 27 == f,
        (f * 27 + g) % 27 == g,
        f * 27 + g < 27 * 27,
{
    assert((f * 27 + g) / 27 == f && (f * 27 + g) % 27 == g) by (nonlinear_arith)
        requires f < g < 27;
}

} // verus!
