//! Substitution ciphers over the lowercase latin alphabet, as individuals of
//! a genetic algorithm: made at random, crossed over and mutated.
use rand::seq::SliceRandom;
use rand::Rng;
use vstd::prelude::*;

verus! {

/// The letter `l` places after `a`.
pub open spec fn letter(l: int) -> u8 {
    (97 + l) as u8
}

/// `c` is one of `a` ..= `z`.
pub open spec fn is_lowercase(c: u8) -> bool {
    97 <= c < 123
}

/// The alphabet `a` ..= `z` in order.
pub open spec fn alphabet() -> Seq<u8> {
    Seq::new(26, |i: int| letter(i))
}

/// `m` holds 26 distinct lowercase letters: it maps the alphabet onto itself.
pub open spec fn is_letter_permutation(m: Seq<u8>) -> bool {
    &&& m.len() == 26
    &&& forall|i: int| 0 <= i < 26 ==> is_lowercase(#[trigger] m[i])
    &&& m.no_duplicates()
}

/// `m` after swapping the image at `position` with the image of the letter
/// found there.
pub open spec fn swap_images(m: Seq<u8>, position: int) -> Seq<u8> {
    let q = m[position] - 97;
    m.update(position, m[q]).update(q, m[position])
}

/// The crossover point cut to the length of the alphabet.
pub open spec fn cut(crossover: int) -> int {
    if crossover < 26 {
        crossover
    } else {
        26
    }
}

/// `child` is the crossover of `a` and `b` at `crossover`: it keeps `a`'s
/// images before the crossover point, then `b`'s images where they do not
/// repeat one of those, and fills the remaining positions with the letters
/// still missing, the lowest letter going to the last such position.
pub open spec fn is_crossover(a: Seq<u8>, b: Seq<u8>, crossover: int, child: Seq<u8>) -> bool {
    let k = cut(crossover);
    let head = a.subrange(0, k);
    &&& is_letter_permutation(child)
    &&& forall|i: int| 0 <= i < k ==> child[i] == a[i]
    &&& forall|i: int| k <= i < 26 && !head.contains(b[i]) ==> child[i] == b[i]
    &&& forall|i: int, j: int|
        #![trigger child[i], child[j]]
        k <= i < j < 26 && head.contains(b[i]) && head.contains(b[j]) ==> child[i] > child[j]
}

/// How many entries of `s` are `false`.
pub open spec fn count_unset(s: Seq<bool>) -> nat
    decreases s.len(),
{
    if s.len() == 0 {
        0
    } else {
        (if s[0] {
            0nat
        } else {
            1nat
        }) + count_unset(s.drop_first())
    }
}

proof fn lemma_count_unset_set(s: Seq<bool>, i: int)
    requires
        0 <= i < s.len(),
        !s[i],
    ensures
        count_unset(s.update(i, true)) + 1 == count_unset(s),
    decreases s.len(),
{
    if i == 0 {
        assert(s.update(i, true).drop_first() =~= s.drop_first());
    } else {
        lemma_count_unset_set(s.drop_first(), i - 1);
        assert(s.update(i, true).drop_first() =~= s.drop_first().update(i - 1, true));
    }
}

proof fn lemma_count_unset_step(s: Seq<bool>, l: int)
    requires
        0 <= l < s.len(),
    ensures
        count_unset(s.subrange(l, s.len() as int)) == (if s[l] {
            0nat
        } else {
            1nat
        }) + count_unset(s.subrange(l + 1, s.len() as int)),
{
    assert(s.subrange(l, s.len() as int).drop_first() =~= s.subrange(l + 1, s.len() as int));
}

proof fn lemma_subrange_extend_contains(s: Seq<u8>, lo: int, hi: int, y: u8)
    requires
        0 <= lo <= hi < s.len(),
    ensures
        s.subrange(lo, hi + 1).contains(y) <==> (s.subrange(lo, hi).contains(y) || y == s[hi]),
{
    let short = s.subrange(lo, hi);
    let long = s.subrange(lo, hi + 1);
    if short.contains(y) {
        let j = choose|j: int| 0 <= j < short.len() && short[j] == y;
        assert(long[j] == y);
    }
    if y == s[hi] {
        assert(long[hi - lo] == y);
    }
    if long.contains(y) {
        let j = choose|j: int| 0 <= j < long.len() && long[j] == y;
        if j < hi - lo {
            assert(short[j] == y);
        }
    }
}

/// What the first two passes of `crossover_at` leave behind: `chars2` holds
/// `a`'s head and `b`'s non-repeating images, `copied2` marks the letters
/// taken, and `moved` lists, in increasing order, the positions still to fill.
#[verifier::opaque]
spec fn after_second_pass(
    a: Seq<u8>,
    b: Seq<u8>,
    k: int,
    chars2: Seq<u8>,
    copied2: Seq<bool>,
    moved: Seq<usize>,
) -> bool {
    &&& is_letter_permutation(a)
    &&& is_letter_permutation(b)
    &&& 0 <= k <= 26
    &&& chars2.len() == 26
    &&& copied2.len() == 26
    &&& forall|j: int| 0 <= j < k ==> chars2[j] == a[j]
    &&& forall|j: int| k <= j < 26 && !a.subrange(0, k).contains(b[j]) ==> chars2[j] == b[j]
    &&& forall|l: int|
        0 <= l < 26 ==> copied2[l] == (a.subrange(0, k).contains(letter(l)) || b.subrange(
            k,
            26,
        ).contains(letter(l)))
    &&& forall|t: int| 0 <= t < moved.len() ==> k <= #[trigger] moved[t] && moved[t] < 26
    &&& forall|t1: int, t2: int| 0 <= t1 < t2 < moved.len() ==> moved[t1] < moved[t2]
    &&& forall|j: int| k <= j < 26 ==> (a.subrange(0, k).contains(b[j]) <==> moved.contains(j as usize))
}

/// The state the three passes of `crossover_at` leave behind is a crossover.
proof fn lemma_crossover_result(
    a: Seq<u8>,
    b: Seq<u8>,
    k: int,
    chars2: Seq<u8>,
    copied2: Seq<bool>,
    moved: Seq<usize>,
    child: Seq<u8>,
)
    requires
        after_second_pass(a, b, k, chars2, copied2, moved),
        child.len() == 26,
        forall|p: int| 0 <= p < 26 && !moved.contains(p as usize) ==> child[p] == chars2[p],
        forall|t: int|
            0 <= t < moved.len() ==> {
                let v = #[trigger] child[moved[t] as int];
                is_lowercase(v) && !copied2[v - 97]
            },
        forall|t1: int, t2: int|
            0 <= t1 < t2 < moved.len() ==> child[moved[t1] as int] > child[moved[t2] as int],
    ensures
        is_crossover(a, b, k, child),
{
    reveal(after_second_pass);
    let head = a.subrange(0, k);
    assert(cut(k) == k);
    assert forall|p: int| 0 <= p < k implies !moved.contains(p as usize) && #[trigger] child[p] == a[p] by {
        if moved.contains(p as usize) {
            let t = choose|t: int| 0 <= t < moved.len() && moved[t] == p as usize;
            assert(k <= moved[t]);
        }
    }
    // Each position is filled in one of three ways.
    assert forall|p: int| 0 <= p < 26 implies {
        ||| (p < k && child[p] == a[p])
        ||| (k <= p && !head.contains(b[p]) && child[p] == b[p])
        ||| (k <= p && head.contains(b[p]) && (exists|t: int| 0 <= t < moved.len() && moved[t] == p) && is_lowercase(child[p]) && !copied2[child[p] - 97])
    } by {
        if p < k {
        } else if !head.contains(b[p]) {
            assert(!moved.contains(p as usize));
        } else {
            assert(moved.contains(p as usize));
            let t = choose|t: int| 0 <= t < moved.len() && moved[t] == p as usize;
            assert(child[moved[t] as int] == child[p]);
        }
    }
    assert forall|i: int| 0 <= i < 26 implies is_lowercase(#[trigger] child[i]) by {
        if i >= k && head.contains(b[i]) {
            assert(moved.contains(i as usize));
            let t = choose|t: int| 0 <= t < moved.len() && moved[t] == i as usize;
            assert(child[moved[t] as int] == child[i]);
        }
    }
    assert forall|i: int, j: int|
        #![trigger child[i], child[j]]
        k <= i < j < 26 && head.contains(b[i]) && head.contains(b[j]) implies child[i] > child[j] by {
        assert(moved.contains(i as usize));
        assert(moved.contains(j as usize));
        let ti = choose|t: int| 0 <= t < moved.len() && moved[t] == i as usize;
        let tj = choose|t: int| 0 <= t < moved.len() && moved[t] == j as usize;
        if tj <= ti {
            if tj < ti {
                assert(moved[tj] < moved[ti]);
            }
        }
        assert(child[moved[ti] as int] > child[moved[tj] as int]);
    }
    assert forall|i: int, j: int| 0 <= i < 26 && 0 <= j < 26 && i != j implies child[i] != child[j] by {
        if i < j {
            lemma_crossover_distinct(a, b, k, copied2, moved, child, i, j);
        } else {
            lemma_crossover_distinct(a, b, k, copied2, moved, child, j, i);
        }
    }
}

proof fn lemma_crossover_distinct(
    a: Seq<u8>,
    b: Seq<u8>,
    k: int,
    copied2: Seq<bool>,
    moved: Seq<usize>,
    child: Seq<u8>,
    i: int,
    j: int,
)
    requires
        is_letter_permutation(a),
        is_letter_permutation(b),
        0 <= k <= 26,
        copied2.len() == 26,
        child.len() == 26,
        0 <= i < 26,
        0 <= j < 26,
        i < j,
        forall|l: int|
            0 <= l < 26 ==> copied2[l] == (a.subrange(0, k).contains(letter(l)) || b.subrange(
                k,
                26,
            ).contains(letter(l))),
        forall|p: int| 0 <= p < 26 ==> {
            ||| (p < k && child[p] == a[p])
            ||| (k <= p && !a.subrange(0, k).contains(b[p]) && child[p] == b[p])
            ||| (k <= p && a.subrange(0, k).contains(b[p]) && (exists|t: int| 0 <= t < moved.len() && moved[t] == p) && is_lowercase(child[p]) && !copied2[child[p] - 97])
        },
        forall|i: int, j: int|
            #![trigger child[i], child[j]]
            k <= i < j < 26 && a.subrange(0, k).contains(b[i]) && a.subrange(0, k).contains(b[j]) ==> child[i] > child[j],
    ensures
        child[i] != child[j],
{
    let head = a.subrange(0, k);
    let tail = b.subrange(k, 26);
    // A refilled letter occurs neither in `a`'s head nor in `b`'s tail.
    assert forall|p: int, q: int|
        0 <= p < 26 && 0 <= q < 26 && is_lowercase(child[p]) && !copied2[child[p] - 97]
            && ((q < k && child[q] == a[q]) || (k <= q && child[q] == b[q])) implies child[p]
        != child[q] by {
        let v = child[p];
        assert(letter(v - 97) == v);
        if q < k && child[q] == a[q] {
            assert(head[q] == a[q]);
            assert(head.contains(a[q]));
        } else {
            assert(tail[q - k] == b[q]);
            assert(tail.contains(b[q]));
        }
    }
    if i < k && child[i] == a[i] {
        if j < k && child[j] == a[j] {
        } else if k <= j && !head.contains(b[j]) && child[j] == b[j] {
            assert(head[i] == a[i]);
        }
    } else if k <= i && !head.contains(b[i]) && child[i] == b[i] {
    }
}

/// Appends `c` to `s` with `String::push`, which adds the character at the end.
#[verifier::external_body]
fn push_char(s: &mut String, c: char)
    ensures
        final(s)@ == old(s)@.push(c),
{
    s.push(c);
}

/// The text of `apply`: every character of `text` encoded.
pub open spec fn encode_text(m: Seq<u8>, text: Seq<char>) -> Seq<char> {
    text.map_values(|c: char| encode_char(m, c))
}

/// What a cipher with images `m` turns `c` into: a character whose code,
/// cut to its low byte, is a lowercase letter is replaced by that letter's
/// image; every other character is kept.
pub open spec fn encode_char(m: Seq<u8>, c: char) -> char {
    let v = c as u8;
    if 97 <= v && v - 97 < 26 {
        m[v - 97] as char
    } else {
        c
    }
}

/// The line of the table that `to_string` writes for letter `i`: the letter,
/// a colon, its image and a comma, each separated by a space.
pub open spec fn table_entry(m: Seq<u8>, i: int) -> Seq<char> {
    seq![letter(i) as char, ':', ' ', m[i] as char, ',', ' ']
}

/// The entries of the first `n` letters, in order.
pub open spec fn table_prefix(m: Seq<u8>, n: nat) -> Seq<char>
    decreases n,
{
    if n == 0 {
        Seq::empty()
    } else {
        table_prefix(m, (n - 1) as nat) + table_entry(m, n - 1)
    }
}

/// The text of `to_string`: the entries of all 26 letters and a line break.
pub open spec fn table_text(m: Seq<u8>) -> Seq<char> {
    table_prefix(m, 26).push('\n')
}

/// A substitution cipher: letter `i` of the alphabet is replaced by `mapping[i]`.
pub struct SubstitutionCipher {
    mapping: [u8; 26],
}

impl View for SubstitutionCipher {
    type V = Seq<u8>;

    closed spec fn view(&self) -> Seq<u8> {
        self.mapping@
    }
}

/// Rearranges `letters` in place with `rand::seq::SliceRandom::shuffle` and
/// the thread-local generator.  Which rearrangement comes out is random; the
/// contract states only that the result holds the same letters.
#[verifier::external_body]
fn shuffle_letters(letters: &mut [u8; 26])
    ensures
        final(letters)@.to_multiset() == old(letters)@.to_multiset(),
{
    letters.shuffle(&mut rand::thread_rng());
}

/// A random `usize` from `rand::Rng::gen` on the thread-local generator.
/// Nothing is promised of the value.
#[verifier::external_body]
fn random_usize() -> usize {
    rand::thread_rng().gen::<usize>()
}

/// A sequence with the letters of a letter permutation, counted with
/// multiplicity, is a letter permutation too.
proof fn lemma_same_letters_is_permutation(m: Seq<u8>, n: Seq<u8>)
    requires
        is_letter_permutation(m),
        n.to_multiset() == m.to_multiset(),
    ensures
        is_letter_permutation(n),
{
    broadcast use vstd::seq_lib::group_to_multiset_ensures;

    assert(n.len() == n.to_multiset().len());
    assert(m.len() == m.to_multiset().len());
    m.lemma_multiset_has_no_duplicates();
    n.lemma_multiset_has_no_duplicates_conv();
    assert forall|i: int| 0 <= i < 26 implies is_lowercase(#[trigger] n[i]) by {
        assert(n.contains(n[i]));
        assert(n.to_multiset().count(n[i]) > 0);
        assert(m.to_multiset().count(n[i]) > 0);
        assert(m.contains(n[i]));
    }
}

impl SubstitutionCipher {
    /// The cipher is a permutation of the alphabet.
    pub open spec fn wf(&self) -> bool {
        is_letter_permutation(self@)
    }

    /// A cipher that maps the alphabet onto a random rearrangement of itself.
    pub fn new() -> (cipher: SubstitutionCipher)
        ensures
            cipher.wf(),
            cipher@.to_multiset() == alphabet().to_multiset(),
    {
        let mut chars: [u8; 26] = [
            97, 98, 99, 100, 101, 102, 103, 104, 105, 106, 107, 108, 109, 110, 111, 112, 113, 114,
            115, 116, 117, 118, 119, 120, 121, 122,
        ];
        assert(chars@ =~= alphabet());
        proof {
            assert forall|i: int, j: int| 0 <= i < 26 && 0 <= j < 26 && i != j implies alphabet()[i]
                != alphabet()[j] by {}
        }
        shuffle_letters(&mut chars);
        proof {
            lemma_same_letters_is_permutation(alphabet(), chars@);
        }
        SubstitutionCipher { mapping: chars }
    }

    /// Crosses `parent_a` with `parent_b` at `crossover` (see `is_crossover`).
    pub fn crossover_at(
        parent_a: &SubstitutionCipher,
        parent_b: &SubstitutionCipher,
        crossover: usize,
    ) -> (child: SubstitutionCipher)
        requires
            parent_a.wf(),
            parent_b.wf(),
        ensures
            child.wf(),
            is_crossover(parent_a@, parent_b@, crossover as int, child@),
    {
        let ghost a = parent_a@;
        let ghost b = parent_b@;
        let mut chars: [u8; 26] = [
            0, 0, 0, 0, 0, 0, 0, 0, 0, 0, 0, 0, 0, 0, 0, 0, 0, 0, 0, 0, 0, 0, 0, 0, 0, 0,
        ];
        let mut copied: [bool; 26] = [
            false, false, false, false, false, false, false, false, false, false, false, false,
            false, false, false, false, false, false, false, false, false, false, false, false,
            false, false,
        ];
        let mut not_moved: Vec<usize> = Vec::new();
        let k: usize = if crossover < 26 {
            crossover
        } else {
            26
        };
        let ghost head = a.subrange(0, k as int);
        proof {
            assert(count_unset(copied@) == 26) by {
                reveal_with_fuel(count_unset, 27);
            }
            assert forall|l: int| 0 <= l < 26 implies copied@[l] == a.subrange(0, 0).contains(
                letter(l),
            ) by {}
        }
        // Positions before the crossover point take `parent_a`'s images.
        let mut i: usize = 0;
        while i < k
            invariant
                a == parent_a@,
                is_letter_permutation(a),
                k <= 26,
                0 <= i <= k,
                forall|j: int| 0 <= j < i ==> chars@[j] == a[j],
                forall|l: int| 0 <= l < 26 ==> copied@[l] == a.subrange(0, i as int).contains(letter(l)),
                count_unset(copied@) + i == 26,
            decreases k - i,
        {
            let x = parent_a.mapping[i];
            chars[i] = x;
            proof {
                assert(is_lowercase(a[i as int]));
                assert(letter(x - 97) == x);
                assert(!a.subrange(0, i as int).contains(x)) by {
                    if a.subrange(0, i as int).contains(x) {
                        let j = choose|j: int| 0 <= j < i && a.subrange(0, i as int)[j] == x;
                        assert(a[j] == a[i as int]);
                    }
                }
                lemma_count_unset_set(copied@, x - 97);
            }
            let ghost c0 = copied@;
            copied[(x - 97) as usize] = true;
            proof {
                assert forall|l: int| 0 <= l < 26 implies copied@[l] == a.subrange(
                    0,
                    i + 1,
                ).contains(letter(l)) by {
                    lemma_subrange_extend_contains(a, 0, i as int, letter(l));
                    if letter(l) == x {
                        assert(l == x - 97);
                    } else {
                        assert(copied@[l] == c0[l]);
                    }
                }
            }
            i = i + 1;
        }
        // Positions after it take `parent_b`'s images unless those repeat one
        // already taken; such positions are remembered.
        while i < 26
            invariant
                a == parent_a@,
                b == parent_b@,
                is_letter_permutation(a),
                is_letter_permutation(b),
                k <= 26,
                head == a.subrange(0, k as int),
                k <= i <= 26,
                forall|j: int| 0 <= j < k ==> chars@[j] == a[j],
                forall|j: int| k <= j < i && !head.contains(b[j]) ==> chars@[j] == b[j],
                forall|l: int|
                    0 <= l < 26 ==> copied@[l] == (head.contains(letter(l)) || b.subrange(
                        k as int,
                        i as int,
                    ).contains(letter(l))),
                forall|t: int| 0 <= t < not_moved@.len() ==> k <= #[trigger] not_moved@[t] < i,
                forall|t1: int, t2: int|
                    0 <= t1 < t2 < not_moved@.len() ==> not_moved@[t1] < not_moved@[t2],
                forall|j: int| k <= j < i ==> (head.contains(b[j]) <==> not_moved@.contains(j as usize)),
                count_unset(copied@) + i == 26 + not_moved@.len(),
            decreases 26 - i,
        {
            let b_char = parent_b.mapping[i];
            proof {
                assert(is_lowercase(b[i as int]));
                assert(letter(b_char - 97) == b_char);
                assert(b.subrange(k as int, i + 1) =~= b.subrange(k as int, i as int).push(b_char));
                assert(!b.subrange(k as int, i as int).contains(b_char)) by {
                    if b.subrange(k as int, i as int).contains(b_char) {
                        let j = choose|j: int|
                            0 <= j < i - k && b.subrange(k as int, i as int)[j] == b_char;
                        assert(b[k + j] == b[i as int]);
                    }
                }
            }
            if !copied[(b_char - 97) as usize] {
                chars[i] = b_char;
                proof {
                    lemma_count_unset_set(copied@, b_char - 97);
                }
                let ghost c0 = copied@;
                copied[(b_char - 97) as usize] = true;
                proof {
                    assert forall|l: int| 0 <= l < 26 implies copied@[l] == (head.contains(letter(l))
                        || b.subrange(k as int, i + 1).contains(letter(l))) by {
                        lemma_subrange_extend_contains(b, k as int, i as int, letter(l));
                        if letter(l) == b_char {
                            assert(l == b_char - 97);
                        } else {
                            assert(copied@[l] == c0[l]);
                        }
                    }
                }
            } else {
                let ghost before = not_moved@;
                not_moved.push(i);
                proof {
                    assert(head.contains(b_char));
                    assert forall|j: int| k <= j < i + 1 implies (head.contains(b[j])
                        <==> not_moved@.contains(j as usize)) by {
                        if j < i {
                            if before.contains(j as usize) {
                                let t = choose|t: int| 0 <= t < before.len() && before[t] == j as usize;
                                assert(not_moved@[t] == j as usize);
                            }
                            if not_moved@.contains(j as usize) {
                                let t = choose|t: int|
                                    0 <= t < not_moved@.len() && not_moved@[t] == j as usize;
                                assert(t < before.len());
                                assert(before[t] == j as usize);
                            }
                        } else {
                            assert(not_moved@[before.len() as int] == i);
                        }
                    }
                    assert forall|l: int| 0 <= l < 26 implies copied@[l] == (head.contains(letter(l))
                        || b.subrange(k as int, i + 1).contains(letter(l))) by {
                        lemma_subrange_extend_contains(b, k as int, i as int, letter(l));
                        if letter(l) == b_char {
                            assert(l == b_char - 97);
                        }
                    }
                }
            }
            i = i + 1;
        }
        let ghost chars2 = chars@;
        let ghost copied2 = copied@;
        let ghost moved = not_moved@;
        proof {
            assert(copied2.subrange(0, 26) =~= copied2);
            assert(forall|t: int| 0 <= t < moved.len() ==> k <= #[trigger] moved[t] < 26);
            reveal(after_second_pass);
            assert(after_second_pass(a, b, k as int, chars2, copied2, moved));
        }
        // Every letter not yet taken goes to a remembered position, the
        // lowest letter to the last position.
        let mut l: usize = 0;
        while l < 26
            invariant
                after_second_pass(a, b, k as int, chars2, copied2, moved),
                copied@ == copied2,
                copied2.len() == 26,
                chars2.len() == 26,
                0 <= l <= 26,
                not_moved@.len() <= moved.len(),
                not_moved@ == moved.subrange(0, not_moved@.len() as int),
                count_unset(copied2.subrange(l as int, 26)) == not_moved@.len(),
                k <= 26,
                forall|t: int| 0 <= t < moved.len() ==> k <= #[trigger] moved[t] < 26,
                forall|t1: int, t2: int| 0 <= t1 < t2 < moved.len() ==> moved[t1] < moved[t2],
                forall|p: int| 0 <= p < 26 && !moved.contains(p as usize) ==> chars@[p] == chars2[p],
                forall|t: int|
                    not_moved@.len() <= t < moved.len() ==> {
                        let v = #[trigger] chars@[moved[t] as int];
                        is_lowercase(v) && v < letter(l as int) && !copied2[v - 97]
                    },
                forall|t1: int, t2: int|
                    not_moved@.len() <= t1 < t2 < moved.len() ==> chars@[moved[t1] as int]
                        > chars@[moved[t2] as int],
            decreases 26 - l,
        {
            proof {
                lemma_count_unset_step(copied2, l as int);
            }
            if !copied[l] {
                let ghost len = not_moved@.len();
                let index = not_moved.pop().unwrap();
                proof {
                    assert(index == moved[len - 1]);
                    assert(not_moved@ =~= moved.subrange(0, len - 1));
                }
                chars[index] = 97 + l as u8;
                proof {
                    assert forall|p: int| 0 <= p < 26 && !moved.contains(p as usize) implies chars@[p]
                        == chars2[p] by {
                        if p == index {
                            assert(moved.contains(index));
                        }
                    }
                    assert forall|t: int| not_moved@.len() <= t < moved.len() implies {
                        let v = #[trigger] chars@[moved[t] as int];
                        is_lowercase(v) && v < letter(l + 1) && !copied2[v - 97]
                    } by {
                        if t > len - 1 {
                            assert(moved[t] != index);
                        }
                    }
                    assert forall|t1: int, t2: int|
                        not_moved@.len() <= t1 < t2 < moved.len() implies chars@[moved[t1] as int]
                        > chars@[moved[t2] as int] by {
                        if t1 > len - 1 {
                            assert(moved[t1] != index);
                        }
                        assert(moved[t2] != index);
                    }
                }
            }
            l = l + 1;
        }
        let child = SubstitutionCipher { mapping: chars };
        proof {
            assert(copied2.subrange(26, 26) =~= Seq::<bool>::empty());
            assert(not_moved@.len() == 0);
            lemma_crossover_result(a, b, k as int, chars2, copied2, moved, child@);
        }
        child
    }

    /// Encodes `text` character by character (see `encode_char`).
    pub fn apply(&self, text: &String) -> (result: String)
        ensures
            result@ == encode_text(self@, text@),
    {
        let mut result = String::new();
        let s = text.as_str();
        for character in it: s.chars()
            invariant
                result@ == encode_text(self@, it.seq().take(it.index() as int)),
        {
            let char_value = #[verifier::truncate] (character as u8);
            if char_value >= 97 && char_value - 97 < 26 {
                push_char(&mut result, self.mapping[(char_value - 97) as usize] as char);
            } else {
                push_char(&mut result, character);
            }
            proof {
                assert(it.seq().take(it.index() + 1) =~= it.seq().take(it.index() as int).push(character));
            }
        }
        result
    }

    /// Crosses the parents at a random point before the last letter (see
    /// `crossover_at`).
    pub fn crossover(parent_a: &SubstitutionCipher, parent_b: &SubstitutionCipher) -> (child:
        SubstitutionCipher)
        requires
            parent_a.wf(),
            parent_b.wf(),
        ensures
            child.wf(),
            exists|point: int|
                0 <= point < 26 && #[trigger] is_crossover(parent_a@, parent_b@, point, child@),
    {
        let point = random_usize() % 26;
        Self::crossover_at(parent_a, parent_b, point)
    }

    /// The table of the cipher: `a: x, b: y, ...` and a line break.
    pub fn to_string(&self) -> (text: String)
        ensures
            text@ == table_text(self@),
    {
        let mut text = String::new();
        let mut i: usize = 0;
        while i < 26
            invariant
                0 <= i <= 26,
                text@ == table_prefix(self@, i as nat),
            decreases 26 - i,
        {
            let ghost before = text@;
            push_char(&mut text, (97 + i as u8) as char);
            push_char(&mut text, ':');
            push_char(&mut text, ' ');
            push_char(&mut text, self.mapping[i] as char);
            push_char(&mut text, ',');
            push_char(&mut text, ' ');
            proof {
                assert(text@ =~= before + table_entry(self@, i as int));
            }
            i = i + 1;
        }
        push_char(&mut text, '\n');
        text
    }

    /// A copy of the cipher.
    pub fn clone(&self) -> (copy: Self)
        ensures
            copy@ == self@,
    {
        let mut chars: [u8; 26] = [
            0, 0, 0, 0, 0, 0, 0, 0, 0, 0, 0, 0, 0, 0, 0, 0, 0, 0, 0, 0, 0, 0, 0, 0, 0, 0,
        ];
        let mut i: usize = 0;
        while i < 26
            invariant
                0 <= i <= 26,
                forall|j: int| 0 <= j < i ==> chars@[j] == self@[j],
            decreases 26 - i,
        {
            chars[i] = self.mapping[i];
            i = i + 1;
        }
        let copy = SubstitutionCipher { mapping: chars };
        assert(copy@ =~= self@);
        copy
    }

    /// Swaps the image at `position` with the image of the letter found
    /// there: after it, `position` maps to what letter `self@[position]`
    /// mapped to, and that letter maps to itself.
    pub fn mutate_at(&mut self, position: usize)
        requires
            old(self).wf(),
            position < 26,
        ensures
            final(self).wf(),
            final(self)@ == swap_images(old(self)@, position as int),
    {
        let character_a_old = self.mapping[position];
        let character_a_new = self.mapping[(character_a_old - 97) as usize];
        self.mapping[position] = character_a_new;
        self.mapping[(character_a_old - 97) as usize] = character_a_old;
        proof {
            let m = old(self)@;
            let q = m[position as int] - 97;
            let n = self@;
            assert(n =~= m.update(position as int, m[q]).update(q, m[position as int]));
            assert forall|i: int, j: int| 0 <= i < 26 && 0 <= j < 26 && i != j implies n[i]
                != n[j] by {
                let p = position as int;
                let si = if i == p { q } else if i == q { p } else { i };
                let sj = if j == p { q } else if j == q { p } else { j };
                assert(n[i] == m[si]);
                assert(n[j] == m[sj]);
            }
        }
    }

    /// Mutates the cipher at a random position (see `mutate_at`).
    pub fn mutate(&mut self)
        requires
            old(self).wf(),
        ensures
            final(self).wf(),
            exists|position: int|
                0 <= position < 26 && final(self)@ == #[trigger] swap_images(old(self)@, position),
    {
        let position = random_usize() % 26;
        self.mutate_at(position);
    }
}

/// Every lowercase letter is the image of some letter under a letter permutation.
proof fn lemma_every_letter_is_an_image(m: Seq<u8>, c: u8)
    requires
        is_letter_permutation(m),
        is_lowercase(c),
    ensures
        exists|i: int| 0 <= i < 26 && m[i] == c,
{
    let codes = m.map_values(|x: u8| x as int);
    assert forall|i: int, j: int| 0 <= i < codes.len() && 0 <= j < codes.len() && i != j implies codes[i]
        != codes[j] by {
        assert(m[i] != m[j]);
    }
    codes.unique_seq_to_set();
    let images = codes.to_set();
    let range = vstd::set_lib::set_int_range(97, 123);
    vstd::set_lib::lemma_int_range(97, 123);
    assert(images.subset_of(range)) by {
        assert forall|x: int| images.contains(x) implies range.contains(x) by {
            assert(codes.contains(x));
            let i = choose|i: int| 0 <= i < codes.len() && codes[i] == x;
            assert(is_lowercase(m[i]));
        }
    }
    vstd::seq_lib::seq_to_set_is_finite(codes);
    vstd::set_lib::lemma_subset_equality(images, range);
    assert(range.contains(c as int));
    assert(codes.contains(c as int));
    let i = choose|i: int| 0 <= i < codes.len() && codes[i] == c as int;
    assert(m[i] == c);
}

/// A cipher is a bijection of the lowercase letters: each letter is encoded
/// as a letter, different letters are encoded differently, and every letter
/// is the encoding of some letter.  So a text of letters can be decoded.
pub proof fn lemma_encoding_permutes_letters(m: Seq<u8>, c: char, d: char, target: char)
    requires
        is_letter_permutation(m),
        'a' <= c <= 'z',
        'a' <= d <= 'z',
        'a' <= target <= 'z',
    ensures
        'a' <= encode_char(m, c) <= 'z',
        c != d ==> encode_char(m, c) != encode_char(m, d),
        exists|e: char| 'a' <= e <= 'z' && encode_char(m, e) == target,
{
    assert((c as u8) as int == c as int);
    assert((d as u8) as int == d as int);
    assert(is_lowercase(m[c as u8 - 97]));
    if c != d {
        assert(m[c as u8 - 97] != m[d as u8 - 97]);
    }
    lemma_every_letter_is_an_image(m, target as u8);
    let i = choose|i: int| 0 <= i < 26 && m[i] == target as u8;
    let e = (97 + i) as char;
    assert((e as u8) as int == 97 + i);
    assert(encode_char(m, e) == target);
}

/// Encoding keeps the length of a text, and keeps every character whose
/// low byte is not a lowercase letter.
pub proof fn lemma_encoding_keeps_shape(m: Seq<u8>, text: Seq<char>, i: int)
    requires
        0 <= i < text.len(),
        !is_lowercase(text[i] as u8),
    ensures
        encode_text(m, text).len() == text.len(),
        encode_text(m, text)[i] == text[i],
{
}

/// `d` undoes `m`: the image under `m` of each letter is mapped back to it by `d`.
pub open spec fn is_inverse(m: Seq<u8>, d: Seq<u8>) -> bool {
    &&& d.len() == 26
    &&& forall|i: int| 0 <= i < 26 ==> #[trigger] d[m[i] - 97] == letter(i)
}

/// Decoding with the inverse cipher undoes encoding, for every text in which
/// each character whose low byte is a lowercase letter is that letter itself:
/// a character above U+00FF with such a low byte is encoded like the letter
/// and so decodes to the letter, not to itself.
pub proof fn lemma_inverse_cipher_decodes(m: Seq<u8>, d: Seq<u8>, text: Seq<char>)
    requires
        is_letter_permutation(m),
        is_inverse(m, d),
        forall|i: int|
            0 <= i < text.len() && is_lowercase(#[trigger] text[i] as u8) ==> (text[i] as u8) as char == text[i],
    ensures
        encode_text(d, encode_text(m, text)) == text,
{
    assert forall|i: int| 0 <= i < text.len() implies #[trigger] encode_text(d, encode_text(m, text))[i]
        == text[i] by {
        let c = text[i];
        let v = c as u8;
        if 97 <= v && v - 97 < 26 {
            let image = m[v - 97];
            assert(is_lowercase(image));
            assert(((image as char) as u8) as int == image as int);
            assert(d[image - 97] == letter(v - 97));
            assert(letter(v - 97) == v);
        }
    }
    assert(encode_text(d, encode_text(m, text)) =~= text);
}

/// Crossing a cipher with itself gives the cipher back, wherever the
/// crossover point lies.
pub proof fn lemma_crossover_with_itself(a: Seq<u8>, crossover: int, child: Seq<u8>)
    requires
        is_letter_permutation(a),
        0 <= crossover,
        is_crossover(a, a, crossover, child),
    ensures
        child == a,
{
    let k = cut(crossover);
    assert forall|i: int| k <= i < 26 implies !a.subrange(0, k).contains(a[i]) by {
        if a.subrange(0, k).contains(a[i]) {
            let j = choose|j: int| 0 <= j < k && a.subrange(0, k)[j] == a[i];
            assert(a[j] == a[i]);
        }
    }
    assert(child =~= a);
}

/// Crossing over at the start gives the second parent; at or past the end,
/// the first.
pub proof fn lemma_crossover_at_the_ends(a: Seq<u8>, b: Seq<u8>, crossover: int, child: Seq<u8>)
    requires
        is_letter_permutation(a),
        is_letter_permutation(b),
        is_crossover(a, b, crossover, child),
        crossover == 0 || crossover >= 26,
    ensures
        crossover == 0 ==> child == b,
        crossover >= 26 ==> child == a,
{
    if crossover == 0 {
        assert(a.subrange(0, 0) =~= Seq::<u8>::empty());
        assert(child =~= b);
    } else {
        assert(child =~= a);
    }
}

} // verus!
