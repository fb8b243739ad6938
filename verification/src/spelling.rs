use vstd::prelude::*;

use crate::key::{all_letters, Key};
use crate::letter::{char_index, is_letter_char, letter_char, Letter};
use crate::text::push_char;

verus! {

/// The base-32 digits of `c`, most significant first.
pub open spec fn digits(c: nat) -> Seq<nat>
    decreases c,
{
    if c == 0 {
        Seq::empty()
    } else {
        digits(c / 32).push(c % 32)
    }
}

/// The number whose base-32 digits are the letters plus one, first letter
/// most significant.
pub open spec fn encode(letters: Seq<u32>) -> nat
    decreases letters.len(),
{
    if letters.len() == 0 {
        0
    } else {
        (encode(letters.drop_last()) * 32 + letters.last() + 1) as nat
    }
}

/// Letter indexes, each below the alphabet size.
pub open spec fn letter_indexes(s: Seq<u32>) -> bool {
    forall|i: int| 0 <= i < s.len() ==> #[trigger] s[i] < 27
}

/// The letter indexes of a string of letters.
pub open spec fn indexes_of(s: Seq<char>) -> Seq<u32> {
    s.map_values(|c: char| char_index(c))
}

pub proof fn lemma_encode_digits(letters: Seq<u32>)
    requires
        letter_indexes(letters),
    ensures
        digits(encode(letters)) == letters.map_values(|l: u32| (l + 1) as nat),
        encode(letters) < pow32(letters.len()),
    decreases letters.len(),
{
    if letters.len() > 0 {
        let p = letters.drop_last();
        assert(letter_indexes(p)) by {
            assert forall|i: int| 0 <= i < p.len() implies #[trigger] p[i] < 27 by {
                assert(p[i] == letters[i]);
            }
        }
        lemma_encode_digits(p);
        let c = encode(letters);
        let d = letters.last() + 1;
        assert(letters.last() < 27);
        assert(c == encode(p) * 32 + d);
        assert(c / 32 == encode(p) && c % 32 == d) by (nonlinear_arith)
            requires c == encode(p) * 32 + d, 1 <= d < 32;
        assert(c != 0);
        assert(letters.map_values(|l: u32| (l + 1) as nat) =~= p.map_values(|l: u32| (l + 1) as nat).push(d as nat));
        assert(pow32(letters.len()) == pow32(p.len()) * 32);
        assert(c < pow32(letters.len())) by (nonlinear_arith)
            requires c == encode(p) * 32 + d, d < 32, encode(p) < pow32(p.len()), pow32(letters.len()) == pow32(p.len()) * 32;
    }
}

/// `32^n`
pub open spec fn pow32(n: nat) -> nat
    decreases n,
{
    if n == 0 {
        1
    } else {
        pow32((n - 1) as nat) * 32
    }
}

proof fn lemma_pow32_bound(n: nat)
    requires
        n <= 25,
    ensures
        pow32(n) <= pow32(25),
        pow32(25) < 0x1_0000_0000_0000_0000_0000_0000_0000_0000,
    decreases n,
{
    reveal_with_fuel(pow32, 26);
    if n < 25 {
        lemma_pow32_mono(n, 25);
    }
}

proof fn lemma_pow32_mono(a: nat, b: nat)
    requires
        a <= b,
    ensures
        pow32(a) <= pow32(b),
    decreases b,
{
    if a < b {
        lemma_pow32_mono(a, (b - 1) as nat);
        assert(pow32(b) == pow32((b - 1) as nat) * 32);
    }
}

/// The letters of a word, one to 25 of them, packed into one number: five bits
/// per letter, the letter's index plus one, the first letter in the highest
/// bits.
#[derive(PartialEq, Eq, Structural, PartialOrd, Ord, Hash, Debug, Clone, Copy)]
pub struct Spelling(u128);

impl Spelling {
    /// The most letters a spelling can hold.
    pub const MAX_WORD_LENGTH: usize = 25;

    #[verifier::type_invariant]
    spec fn inv(self) -> bool {
        exists|s: Seq<u32>| letter_indexes(s) && 1 <= s.len() <= 25 && encode(s) == self.0
    }

    /// The letter indexes, in order.
    pub closed spec fn letters_spec(self) -> Seq<u32> {
        choose|s: Seq<u32>| letter_indexes(s) && 1 <= s.len() <= 25 && encode(s) == self.0
    }

    /// The packed number.
    pub closed spec fn code(self) -> u128 {
        self.0
    }

    /// The spelling of a word of letters, or an error when the word is empty,
    /// longer than `MAX_WORD_LENGTH` or holds a character that is no letter.
    pub fn parse(word: &str) -> (r: Result<Spelling, &'static str>)
        ensures
            r is Ok <==> 1 <= word@.len() <= 25 && all_letters(word@),
            r matches Ok(w) ==> w.letters_spec() == indexes_of(word@),
    {
        let n = word.unicode_len();
        if n == 0 || n > 25 {
            return Err("The Word has an invalid number of letters.");
        }
        let mut code: u128 = 0;
        let mut i: usize = 0;
        while i < n
            invariant
                n == word@.len(),
                1 <= n <= 25,
                i <= n,
                all_letters(word@.take(i as int)),
                letter_indexes(indexes_of(word@.take(i as int))),
                code == encode(indexes_of(word@.take(i as int))),
                code < pow32(i as nat),
            decreases n - i,
        {
            let c = word.get_char(i);
            match Letter::from_char(c) {
                Err(_) => {
                    proof {
                        assert(word@[i as int] == c);
                    }
                    return Err("A character is not a letter.");
                },
                Ok(letter) => {
                    let ghost prev = indexes_of(word@.take(i as int));
                    let v = letter.to_u32();
                    proof {
                        lemma_pow32_bound(i as nat);
                        lemma_pow32_mono(i as nat + 1, 25);
                        assert(word@.take(i + 1) =~= word@.take(i as int).push(c));
                        assert(indexes_of(word@.take(i + 1)) =~= prev.push(v));
                        assert(encode(prev.push(v)) == encode(prev) * 32 + v + 1) by {
                            assert(prev.push(v).drop_last() =~= prev);
                        }
                        assert(pow32(i as nat + 1) == pow32(i as nat) * 32);
                        assert(code * 32 + v + 1 < pow32(i as nat + 1)) by (nonlinear_arith)
                            requires code < pow32(i as nat), v < 27, pow32(i as nat + 1) == pow32(i as nat) * 32;
                        assert forall|k: int| 0 <= k < i + 1 implies is_letter_char(#[trigger] word@.take(i + 1)[k]) by {
                            if k < i {
                                assert(word@.take(i + 1)[k] == word@.take(i as int)[k]);
                            }
                        }
                        assert forall|k: int| 0 <= k < i + 1 implies #[trigger] indexes_of(word@.take(i + 1))[k] < 27 by {
                            if k < i {
                                assert(indexes_of(word@.take(i + 1))[k] == prev[k]);
                            }
                        }
                    }
                    code = code * 32 + (v as u128) + 1;
                },
            }
            i = i + 1;
        }
        proof {
            assert(word@.take(n as int) =~= word@);
            let s = indexes_of(word@);
            assert(letter_indexes(s) && 1 <= s.len() <= 25 && encode(s) == code);
        }
        let w = Spelling(code);
        proof {
            let s = indexes_of(word@);
            lemma_spelling_unique(w.letters_spec(), s);
        }
        Ok(w)
    }

    /// The letter indexes, in order, are letters of a spelling.
    pub fn lemma_letters(&self)
        ensures
            letter_indexes(self.letters_spec()),
            1 <= self.letters_spec().len() <= 25,
            encode(self.letters_spec()) == self.code(),
    {
        proof {
            use_type_invariant(self);
        }
    }

    /// The letters, in order.
    pub fn letters(&self) -> (r: Vec<Letter>)
        ensures
            r@.len() == self.letters_spec().len(),
            forall|i: int| 0 <= i < r@.len() ==> #[trigger] r@[i].index() == self.letters_spec()[i],
    {
        proof {
            use_type_invariant(self);
        }
        let ghost s = self.letters_spec();
        let mut c = self.0;
        let mut rev: Vec<Letter> = Vec::new();
        let ghost mut k: int = s.len() as int;
        proof {
            assert(s.take(k) =~= s);
        }
        while c > 0
            invariant
                letter_indexes(s),
                0 <= k <= s.len(),
                c == encode(s.take(k)),
                rev@.len() == s.len() - k,
                forall|j: int| 0 <= j < rev@.len() ==> #[trigger] rev@[j].index() == s[s.len() - 1 - j],
            decreases c,
        {
            proof {
                if k == 0 {
                    assert(s.take(0) =~= Seq::<u32>::empty());
                }
                let t = s.take(k);
                assert(t.drop_last() =~= s.take(k - 1));
                assert(t.last() == s[k - 1]);
                let d = s[k - 1] + 1;
                assert(s[k - 1] < 27);
                assert(c == encode(s.take(k - 1)) * 32 + d);
                assert(c % 32 == d && c / 32 == encode(s.take(k - 1))) by (nonlinear_arith)
                    requires c == encode(s.take(k - 1)) * 32 + d, 1 <= d < 32;
            }
            let d = (c % 32) as u32;
            let letter = Letter::from_u32(d - 1).unwrap();
            rev.push(letter);
            c = c / 32;
            proof {
                k = k - 1;
            }
        }
        proof {
            if k > 0 {
                let t = s.take(k);
                assert(t.drop_last() =~= s.take(k - 1));
                lemma_encode_positive(t);
            }
        }
        let mut r: Vec<Letter> = Vec::new();
        let mut j: usize = rev.len();
        while j > 0
            invariant
                j <= rev@.len(),
                rev@.len() == s.len(),
                r@.len() == rev@.len() - j,
                forall|a: int| 0 <= a < rev@.len() ==> #[trigger] rev@[a].index() == s[s.len() - 1 - a],
                forall|a: int| 0 <= a < r@.len() ==> #[trigger] r@[a].index() == s[a],
            decreases j,
        {
            j = j - 1;
            r.push(rev[j]);
        }
        r
    }

    /// The number of letters.
    pub fn len(&self) -> (r: u8)
        ensures
            r == self.letters_spec().len(),
    {
        self.lemma_letters();
        let letters = self.letters();
        letters.len() as u8
    }

    /// The word's characters, such as `there's`.
    pub fn to_string(&self) -> (r: String)
        ensures
            r@ == self.letters_spec().map_values(|i: u32| letter_char(i)),
    {
        let letters = self.letters();
        let mut out = String::new();
        let mut i: usize = 0;
        while i < letters.len()
            invariant
                i <= letters@.len(),
                letters@.len() == self.letters_spec().len(),
                forall|k: int| 0 <= k < letters@.len() ==> #[trigger] letters@[k].index() == self.letters_spec()[k],
                out@ == self.letters_spec().take(i as int).map_values(|i: u32| letter_char(i)),
            decreases letters@.len() - i,
        {
            push_char(&mut out, letters[i].to_char());
            proof {
                assert(self.letters_spec().take(i + 1).map_values(|i: u32| letter_char(i)) =~= self.letters_spec().take(i as int).map_values(|i: u32| letter_char(i)).push(letter_char(self.letters_spec()[i as int])));
            }
            i = i + 1;
        }
        proof {
            assert(self.letters_spec().take(letters@.len() as int) =~= self.letters_spec());
        }
        out
    }

    /// The pairs of different letters at the same positions, for spellings of
    /// the same length; none for spellings of different lengths.
    pub fn different_pairs(&self, other: &Spelling) -> (r: Vec<(Letter, Letter)>)
        ensures
            r@.map_values(|p: (Letter, Letter)| (p.0.index(), p.1.index())) == different_at(self.letters_spec(), other.letters_spec()),
            self.letters_spec().len() == other.letters_spec().len() ==> pairs_at_differences(
                self.letters_spec(),
                other.letters_spec(),
                r@.map_values(|p: (Letter, Letter)| (p.0.index(), p.1.index())),
            ),
            self.letters_spec().len() != other.letters_spec().len() ==> r@.len() == 0,
    {
        proof {
            if self.letters_spec().len() == other.letters_spec().len() {
                lemma_pairs_differing_positions(self.letters_spec(), other.letters_spec());
            }
        }
        let a = self.letters();
        let b = other.letters();
        let mut r: Vec<(Letter, Letter)> = Vec::new();
        if a.len() != b.len() {
            proof {
                assert(r@.map_values(|p: (Letter, Letter)| (p.0.index(), p.1.index())) =~= Seq::<(u32, u32)>::empty());
            }
            return r;
        }
        let ghost sa = self.letters_spec();
        let ghost sb = other.letters_spec();
        let mut i: usize = 0;
        while i < a.len()
            invariant
                i <= a@.len(),
                a@.len() == b@.len(),
                a@.len() == sa.len(),
                b@.len() == sb.len(),
                forall|k: int| 0 <= k < a@.len() ==> #[trigger] a@[k].index() == sa[k],
                forall|k: int| 0 <= k < b@.len() ==> #[trigger] b@[k].index() == sb[k],
                r@.map_values(|p: (Letter, Letter)| (p.0.index(), p.1.index())) == pairs_differing(sa.take(i as int), sb.take(i as int)),
            decreases a@.len() - i,
        {
            let ghost before = r@;
            proof {
                assert(sa.take(i + 1).drop_last() =~= sa.take(i as int));
                assert(sb.take(i + 1).drop_last() =~= sb.take(i as int));
            }
            if a[i].to_u32() != b[i].to_u32() {
                r.push((a[i], b[i]));
                proof {
                    assert(r@.map_values(|p: (Letter, Letter)| (p.0.index(), p.1.index())) =~= before.map_values(|p: (Letter, Letter)| (p.0.index(), p.1.index())).push((sa[i as int], sb[i as int])));
                }
            }
            i = i + 1;
        }
        proof {
            assert(sa.take(a@.len() as int) =~= sa);
            assert(sb.take(a@.len() as int) =~= sb);
        }
        r
    }

    /// The letters the two spellings share at each position, with
    /// `placeholder` where they differ; `None` for spellings of different
    /// lengths.
    pub fn overlap(&self, other: &Spelling, placeholder: char) -> (r: Option<String>)
        ensures
            r is Some <==> self.letters_spec().len() == other.letters_spec().len(),
            r matches Some(t) ==> t@.len() == self.letters_spec().len() && forall|i: int| 0 <= i < t@.len() ==> #[trigger] t@[i] == if self.letters_spec()[i] == other.letters_spec()[i] {
                letter_char(self.letters_spec()[i])
            } else {
                placeholder
            },
    {
        let a = self.letters();
        let b = other.letters();
        if a.len() != b.len() {
            return None;
        }
        let mut out = String::new();
        let mut i: usize = 0;
        while i < a.len()
            invariant
                i <= a@.len(),
                a@.len() == b@.len(),
                a@.len() == self.letters_spec().len(),
                b@.len() == other.letters_spec().len(),
                forall|k: int| 0 <= k < a@.len() ==> #[trigger] a@[k].index() == self.letters_spec()[k],
                forall|k: int| 0 <= k < b@.len() ==> #[trigger] b@[k].index() == other.letters_spec()[k],
                out@.len() == i,
                forall|k: int| 0 <= k < i ==> #[trigger] out@[k] == if self.letters_spec()[k] == other.letters_spec()[k] {
                    letter_char(self.letters_spec()[k])
                } else {
                    placeholder
                },
            decreases a@.len() - i,
        {
            if a[i].to_u32() == b[i].to_u32() {
                push_char(&mut out, a[i].to_char());
            } else {
                push_char(&mut out, placeholder);
            }
            i = i + 1;
        }
        Some(out)
    }

    /// The spelling with every letter of `find` replaced by `letter`.
    pub fn replace_letters(&self, find: Key, letter: Letter) -> (r: Spelling)
        ensures
            r.letters_spec() == self.letters_spec().map_values(|x: u32| if find@.contains(x) {
                letter.index()
            } else {
                x
            }),
    {
        proof {
            use_type_invariant(self);
        }
        let letters = self.letters();
        let replacement = letter.to_u32();
        let ghost s = self.letters_spec();
        let ghost target = s.map_values(|x: u32| if find@.contains(x) { letter.index() } else { x });
        let mut code: u128 = 0;
        let mut i: usize = 0;
        while i < letters.len()
            invariant
                i <= letters@.len(),
                letters@.len() == s.len(),
                1 <= s.len() <= 25,
                letter_indexes(s),
                replacement == letter.index(),
                replacement < 27,
                target == s.map_values(|x: u32| if find@.contains(x) { letter.index() } else { x }),
                forall|k: int| 0 <= k < letters@.len() ==> #[trigger] letters@[k].index() == s[k],
                code == encode(target.take(i as int)),
                code < pow32(i as nat),
            decreases letters@.len() - i,
        {
            let v = if find.contains(letters[i]) { replacement } else { letters[i].to_u32() };
            proof {
                lemma_pow32_bound(i as nat);
                lemma_pow32_mono(i as nat + 1, 25);
                assert(target.take(i + 1).drop_last() =~= target.take(i as int));
                assert(target.take(i + 1).last() == v);
                assert(pow32(i as nat + 1) == pow32(i as nat) * 32);
                assert(code * 32 + v + 1 < pow32(i as nat + 1)) by (nonlinear_arith)
                    requires code < pow32(i as nat), v < 27, pow32(i as nat + 1) == pow32(i as nat) * 32;
            }
            code = code * 32 + (v as u128) + 1;
            i = i + 1;
        }
        proof {
            assert(target.take(letters@.len() as int) =~= target);
            assert(letter_indexes(target));
        }
        let r = Spelling(code);
        proof {
            lemma_spelling_unique(r.letters_spec(), target);
        }
        r
    }
}

/// The pairs of different letters at the same positions.
pub open spec fn pairs_differing(a: Seq<u32>, b: Seq<u32>) -> Seq<(u32, u32)>
    decreases a.len(),
{
    if a.len() == 0 || b.len() == 0 {
        Seq::empty()
    } else if a.last() != b.last() {
        pairs_differing(a.drop_last(), b.drop_last()).push((a.last(), b.last()))
    } else {
        pairs_differing(a.drop_last(), b.drop_last())
    }
}

/// `pairs` lists, in order, the letters of `a` and `b` at exactly the
/// positions where they differ: the positions `p` of the pairs rise, every
/// position where the letters differ is one of them, and no other is.
pub open spec fn pairs_at_differences(a: Seq<u32>, b: Seq<u32>, pairs: Seq<(u32, u32)>) -> bool {
    exists|p: Seq<int>|
        {
            &&& p.len() == pairs.len()
            &&& forall|k: int, l: int| 0 <= k < l < p.len() ==> p[k] < p[l]
            &&& forall|i: int| (exists|k: int| 0 <= k < p.len() && #[trigger] p[k] == i) <==> (0 <= i < a.len() && a[i] != b[i])
            &&& forall|k: int| 0 <= k < p.len() ==> 0 <= #[trigger] p[k] < a.len() && pairs[k] == (a[p[k]], b[p[k]])
        }
}

/// For two letter sequences of the same length, the differing pairs are the
/// letters at exactly the positions where the sequences differ, in order:
/// one pair for each such position and none for any other.
pub proof fn lemma_pairs_differing_positions(a: Seq<u32>, b: Seq<u32>)
    requires
        a.len() == b.len(),
    ensures
        pairs_at_differences(a, b, pairs_differing(a, b)),
    decreases a.len(),
{
    let r = pairs_differing(a, b);
    if a.len() == 0 {
        let p = Seq::<int>::empty();
        assert(forall|i: int| !(0 <= i < a.len() && a[i] != b[i]));
        assert(p.len() == r.len());
    } else {
        let a1 = a.drop_last();
        let b1 = b.drop_last();
        let n = a.len() - 1;
        lemma_pairs_differing_positions(a1, b1);
        let r1 = pairs_differing(a1, b1);
        let p1 = choose|p: Seq<int>|
            {
                &&& p.len() == r1.len()
                &&& forall|k: int, l: int| 0 <= k < l < p.len() ==> p[k] < p[l]
                &&& forall|i: int| (exists|k: int| 0 <= k < p.len() && #[trigger] p[k] == i) <==> (0 <= i < a1.len() && a1[i] != b1[i])
                &&& forall|k: int| 0 <= k < p.len() ==> 0 <= #[trigger] p[k] < a1.len() && r1[k] == (a1[p[k]], b1[p[k]])
            };
        assert(a.last() == a[n] && b.last() == b[n]);
        if a[n] != b[n] {
            let p = p1.push(n);
            assert(r == r1.push((a[n], b[n])));
            assert forall|k: int, l: int| 0 <= k < l < p.len() implies p[k] < p[l] by {
                if l == p1.len() {
                    assert(p1[k] < a1.len());
                } else {
                    assert(p[k] == p1[k] && p[l] == p1[l]);
                }
            }
            assert forall|i: int| (exists|k: int| 0 <= k < p.len() && #[trigger] p[k] == i) <==> (0 <= i < a.len() && a[i] != b[i]) by {
                if exists|k: int| 0 <= k < p.len() && #[trigger] p[k] == i {
                    let k = choose|k: int| 0 <= k < p.len() && #[trigger] p[k] == i;
                    if k < p1.len() {
                        assert(p1[k] == i);
                        assert(a1[i] == a[i] && b1[i] == b[i]);
                    }
                }
                if 0 <= i < a.len() && a[i] != b[i] {
                    if i < n {
                        assert(a1[i] == a[i] && b1[i] == b[i]);
                        let k = choose|k: int| 0 <= k < p1.len() && #[trigger] p1[k] == i;
                        assert(p[k] == i);
                    } else {
                        assert(p[p1.len() as int] == i);
                    }
                }
            }
            assert forall|k: int| 0 <= k < p.len() implies 0 <= #[trigger] p[k] < a.len() && r[k] == (a[p[k]], b[p[k]]) by {
                if k < p1.len() {
                    assert(p[k] == p1[k]);
                    assert(r[k] == r1[k]);
                    assert(a1[p1[k]] == a[p1[k]] && b1[p1[k]] == b[p1[k]]);
                }
            }
            assert(p.len() == r.len());
        } else {
            let p = p1;
            assert(r == r1);
            assert forall|i: int| (exists|k: int| 0 <= k < p.len() && #[trigger] p[k] == i) <==> (0 <= i < a.len() && a[i] != b[i]) by {
                if 0 <= i < a1.len() {
                    assert(a1[i] == a[i] && b1[i] == b[i]);
                }
                if exists|k: int| 0 <= k < p.len() && #[trigger] p[k] == i {
                    let k = choose|k: int| 0 <= k < p.len() && #[trigger] p[k] == i;
                    assert(p1[k] == i);
                }
            }
            assert forall|k: int| 0 <= k < p.len() implies 0 <= #[trigger] p[k] < a.len() && r[k] == (a[p[k]], b[p[k]]) by {
                assert(a1[p1[k]] == a[p1[k]] && b1[p1[k]] == b[p1[k]]);
            }
        }
    }
}

/// `pairs_differing` for words of the same length; nothing otherwise.
pub open spec fn different_at(a: Seq<u32>, b: Seq<u32>) -> Seq<(u32, u32)> {
    if a.len() == b.len() {
        pairs_differing(a, b)
    } else {
        Seq::empty()
    }
}

proof fn lemma_encode_positive(s: Seq<u32>)
    requires
        s.len() > 0,
    ensures
        encode(s) > 0,
{
}

/// Two letter lists with the same code are the same list.
proof fn lemma_spelling_unique(a: Seq<u32>, b: Seq<u32>)
    requires
        letter_indexes(a),
        letter_indexes(b),
        encode(a) == encode(b),
    ensures
        a == b,
{
    lemma_encode_digits(a);
    lemma_encode_digits(b);
    let da = a.map_values(|l: u32| (l + 1) as nat);
    let db = b.map_values(|l: u32| (l + 1) as nat);
    assert(da == db);
    assert(a.len() == b.len());
    assert forall|i: int| 0 <= i < a.len() implies a[i] == b[i] by {
        assert(da[i] == db[i]);
    }
    assert(a =~= b);
}

} // verus!
