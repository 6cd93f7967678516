//! Tokenization: splitting document text on whitespace and case-folding the
//! resulting words into a duplicate-free token list.

use vstd::prelude::*;
use vstd::string::StrSliceExecFns;

verus! {

/// The characters with the Unicode `White_Space` property; tokens are the
/// maximal runs of characters outside this class.
pub open spec fn spec_is_whitespace(c: char) -> bool {
    let u = c as u32;
    ||| u == 0x09
    ||| u == 0x0a
    ||| u == 0x0b
    ||| u == 0x0c
    ||| u == 0x0d
    ||| u == 0x20
    ||| u == 0x85
    ||| u == 0xa0
    ||| u == 0x1680
    ||| (0x2000 <= u && u <= 0x200a)
    ||| u == 0x2028
    ||| u == 0x2029
    ||| u == 0x202f
    ||| u == 0x205f
    ||| u == 0x3000
}

/// Decides `spec_is_whitespace` executably.
pub fn is_whitespace_char(c: char) -> (r: bool)
    ensures
        r == spec_is_whitespace(c),
{
    let u = c as u32;
    u == 0x09 || u == 0x0a || u == 0x0b || u == 0x0c || u == 0x0d || u == 0x20 || u == 0x85
        || u == 0xa0 || u == 0x1680 || (0x2000 <= u && u <= 0x200a) || u == 0x2028 || u == 0x2029
        || u == 0x202f || u == 0x205f || u == 0x3000
}

/// What `str::to_lowercase` returns; the result depends on the characters
/// alone, so it has a name rather than a page-long definition.
pub uninterp spec fn lower_of(s: Seq<char>) -> Seq<char>;

/// Relies on `str::to_lowercase`: the result is the input case-folded to
/// lowercase, and a string that is already the output of that folding is left
/// unchanged by folding it again.
#[verifier::external_body]
pub(crate) fn lowercase(s: &str) -> (r: String)
    ensures
        r@ == lower_of(s@),
        lower_of(r@) == r@,
{
    s.to_lowercase()
}

/// The words remaining in `s`, given that the characters of `cur` have been
/// read just before `s` without meeting whitespace since the last word break.
pub open spec fn words_from(s: Seq<char>, cur: Seq<char>) -> Seq<Seq<char>>
    decreases s.len(),
{
    if s.len() == 0 {
        if cur.len() == 0 {
            Seq::empty()
        } else {
            seq![cur]
        }
    } else if spec_is_whitespace(s[0]) {
        if cur.len() == 0 {
            words_from(s.drop_first(), Seq::empty())
        } else {
            seq![cur] + words_from(s.drop_first(), Seq::empty())
        }
    } else {
        words_from(s.drop_first(), cur.push(s[0]))
    }
}

/// The maximal whitespace-free runs of `s`, in order.
pub open spec fn words(s: Seq<char>) -> Seq<Seq<char>> {
    words_from(s, Seq::empty())
}

/// The case-folded image of a word list.
pub open spec fn folded_set(ws: Seq<Seq<char>>) -> Set<Seq<char>> {
    Set::new(|t: Seq<char>| exists|m: int| 0 <= m < ws.len() && t == lower_of(ws[m]))
}

/// The token set of a text: every word of the text, case-folded.
pub open spec fn token_set(s: Seq<char>) -> Set<Seq<char>> {
    folded_set(words(s))
}

/// The set of views of the strings in `rs`.
pub open spec fn elem_set(rs: Seq<String>) -> Set<Seq<char>> {
    Set::new(|t: Seq<char>| exists|k: int| 0 <= k < rs.len() && rs[k]@ == t)
}

/// Folding the image of one more word extends the image by that word, folded.
proof fn lemma_folded_set_push(ws: Seq<Seq<char>>, w: Seq<char>)
    ensures
        folded_set(ws.push(w)) =~= folded_set(ws).insert(lower_of(w)),
{
    let ws2 = ws.push(w);
    assert forall|t: Seq<char>| folded_set(ws2).contains(t) implies folded_set(ws).insert(
        lower_of(w),
    ).contains(t) by {
        let m = choose|m: int| 0 <= m < ws2.len() && t == lower_of(ws2[m]);
        if m < ws.len() {
            assert(ws2[m] == ws[m]);
            assert(folded_set(ws).contains(t));
        } else {
            assert(ws2[m] == w);
        }
    }
    assert forall|t: Seq<char>| folded_set(ws).insert(lower_of(w)).contains(t) implies folded_set(
        ws2,
    ).contains(t) by {
        if t == lower_of(w) {
            assert(ws2[ws.len() as int] == w);
            assert(t == lower_of(ws2[ws.len() as int]));
        } else {
            let m = choose|m: int| 0 <= m < ws.len() && t == lower_of(ws[m]);
            assert(ws2[m] == ws[m]);
            assert(t == lower_of(ws2[m]));
        }
    }
}

/// Appends `s` to `v` unless an equal string is already there: the element
/// set grows by exactly `s`, and distinct elements stay distinct.
fn push_unique(v: &mut Vec<String>, s: String)
    requires
        forall|k1: int, k2: int| 0 <= k1 < k2 < old(v)@.len() ==> old(v)@[k1]@ != old(v)@[k2]@,
    ensures
        elem_set(final(v)@) =~= elem_set(old(v)@).insert(s@),
        forall|k1: int, k2: int|
            0 <= k1 < k2 < final(v)@.len() ==> final(v)@[k1]@ != final(v)@[k2]@,
        forall|k: int|
            0 <= k < final(v)@.len() ==> (#[trigger] final(v)@[k]@ == s@ || elem_set(
                old(v)@,
            ).contains(final(v)@[k]@)),
{
    let n = v.len();
    let mut j: usize = 0;
    while j < n
        invariant
            n == v@.len(),
            j <= n,
            *v == *old(v),
            forall|k1: int, k2: int| 0 <= k1 < k2 < old(v)@.len() ==> old(v)@[k1]@ != old(v)@[k2]@,
            forall|k: int| 0 <= k < j ==> v@[k]@ != s@,
        decreases n - j,
    {
        if v[j] == s {
            proof {
                assert(v@[j as int]@ == s@);
                assert(v@ == old(v)@);
                assert(elem_set(v@).contains(s@));
                assert forall|k1: int, k2: int| 0 <= k1 < k2 < v@.len() implies v@[k1]@
                    != v@[k2]@ by {
                    assert(old(v)@[k1]@ != old(v)@[k2]@);
                    assert(v@[k1]@ == old(v)@[k1]@);
                    assert(v@[k2]@ == old(v)@[k2]@);
                }
                assert(elem_set(v@) =~= elem_set(old(v)@).insert(s@));
                assert forall|k: int| 0 <= k < v@.len() implies (#[trigger] v@[k]@ == s@
                    || elem_set(old(v)@).contains(v@[k]@)) by {
                    assert(v@[k]@ == old(v)@[k]@);
                }
            }
            return ;
        }
        j += 1;
    }
    let ghost prev = v@;
    v.push(s);
    proof {
        assert(v@ == prev.push(s));
        assert(v@[prev.len() as int]@ == s@);
        assert forall|t: Seq<char>| elem_set(v@).contains(t) implies elem_set(prev).insert(
            s@,
        ).contains(t) by {
            let k = choose|k: int| 0 <= k < v@.len() && v@[k]@ == t;
            if k < prev.len() {
                assert(prev[k]@ == t);
                assert(elem_set(prev).contains(t));
            }
        }
        assert forall|t: Seq<char>| elem_set(prev).insert(s@).contains(t) implies elem_set(
            v@,
        ).contains(t) by {
            if t == s@ {
                assert(v@[prev.len() as int]@ == t);
            } else {
                let k = choose|k: int| 0 <= k < prev.len() && prev[k]@ == t;
                assert(v@[k]@ == t);
            }
        }
        assert(elem_set(v@) =~= elem_set(prev).insert(s@));
        assert forall|k: int| 0 <= k < v@.len() implies (#[trigger] v@[k]@ == s@ || elem_set(
            prev,
        ).contains(v@[k]@)) by {
            if k < prev.len() {
                assert(prev[k]@ == v@[k]@);
            }
        }
    }
}

/// Splits `text` on runs of whitespace and case-folds every word, collecting
/// the results as a list without duplicates whose element set is exactly the
/// token set of the text.
pub fn tokenize(text: &str) -> (r: Vec<String>)
    ensures
        elem_set(r@) == token_set(text@),
        forall|k: int| 0 <= k < r@.len() ==> token_set(text@).contains(#[trigger] r@[k]@),
        forall|t: Seq<char>|
            token_set(text@).contains(t) ==> exists|k: int| 0 <= k < r@.len() && r@[k]@ == t,
        forall|k1: int, k2: int| 0 <= k1 < k2 < r@.len() ==> r@[k1]@ != r@[k2]@,
        forall|k: int| 0 <= k < r@.len() ==> lower_of(#[trigger] r@[k]@) == r@[k]@,
{
    let n = text.unicode_len();
    let mut r: Vec<String> = Vec::new();
    let mut i: usize = 0;
    let mut start: usize = 0;
    let mut in_word: bool = false;
    let ghost mut emitted: Seq<Seq<char>> = Seq::empty();
    proof {
        assert(text@.skip(0) =~= text@);
        assert(Seq::<Seq<char>>::empty() + words_from(text@, Seq::<char>::empty()) =~= words_from(
            text@,
            Seq::<char>::empty(),
        ));
        assert(elem_set(r@) =~= folded_set(emitted));
    }
    while i < n
        invariant
            n == text@.len(),
            i <= n,
            in_word ==> start < i,
            words(text@) == emitted + words_from(
                text@.skip(i as int),
                if in_word {
                    text@.subrange(start as int, i as int)
                } else {
                    Seq::<char>::empty()
                },
            ),
            elem_set(r@) == folded_set(emitted),
            forall|k1: int, k2: int| 0 <= k1 < k2 < r@.len() ==> r@[k1]@ != r@[k2]@,
            forall|k: int| 0 <= k < r@.len() ==> lower_of(#[trigger] r@[k]@) == r@[k]@,
        decreases n - i,
    {
        let c = text.get_char(i);
        proof {
            assert(text@.skip(i as int).len() == n - i);
            assert(text@.skip(i as int)[0] == text@[i as int]);
            assert(text@.skip(i as int).drop_first() =~= text@.skip(i as int + 1));
        }
        if is_whitespace_char(c) {
            if in_word {
                let w = text.substring_char(start, i);
                let folded = lowercase(w);
                let ghost fv = folded@;
                let ghost prev = r@;
                let ghost prev_emitted = emitted;
                push_unique(&mut r, folded);
                proof {
                    emitted = prev_emitted.push(w@);
                    lemma_folded_set_push(prev_emitted, w@);
                    assert(elem_set(r@) =~= folded_set(emitted));
                    assert forall|k: int| 0 <= k < r@.len() implies lower_of(#[trigger] r@[k]@)
                        == r@[k]@ by {
                        if r@[k]@ != fv {
                            assert(elem_set(prev).contains(r@[k]@));
                            let k0 = choose|k0: int| 0 <= k0 < prev.len() && prev[k0]@ == r@[k]@;
                            assert(lower_of(prev[k0]@) == prev[k0]@);
                        }
                    }
                    assert(emitted + words_from(text@.skip(i as int + 1), Seq::<char>::empty())
                        =~= prev_emitted + (seq![w@] + words_from(
                        text@.skip(i as int + 1),
                        Seq::<char>::empty(),
                    )));
                }
                in_word = false;
            }
        } else {
            if !in_word {
                start = i;
                in_word = true;
            }
            proof {
                assert(text@.subrange(start as int, i as int).push(text@[i as int]) =~= text@
                    .subrange(start as int, i as int + 1));
                assert(Seq::<char>::empty().push(text@[i as int]) =~= text@.subrange(
                    i as int,
                    i as int + 1,
                ));
            }
        }
        i += 1;
    }
    proof {
        assert(text@.skip(n as int) =~= Seq::<char>::empty());
    }
    if in_word {
        let w = text.substring_char(start, n);
        let folded = lowercase(w);
        let ghost fv = folded@;
        let ghost prev = r@;
        let ghost prev_emitted = emitted;
        push_unique(&mut r, folded);
        proof {
            emitted = prev_emitted.push(w@);
            lemma_folded_set_push(prev_emitted, w@);
            assert(elem_set(r@) =~= folded_set(emitted));
            assert forall|k: int| 0 <= k < r@.len() implies lower_of(#[trigger] r@[k]@)
                == r@[k]@ by {
                if r@[k]@ != fv {
                    assert(elem_set(prev).contains(r@[k]@));
                    let k0 = choose|k0: int| 0 <= k0 < prev.len() && prev[k0]@ == r@[k]@;
                    assert(lower_of(prev[k0]@) == prev[k0]@);
                }
            }
            assert(emitted =~= prev_emitted + seq![w@]);
        }
    }
    proof {
        assert(words(text@) =~= emitted);
        assert(elem_set(r@) == token_set(text@));
        assert forall|k: int| 0 <= k < r@.len() implies token_set(text@).contains(
            #[trigger] r@[k]@,
        ) by {
            assert(elem_set(r@).contains(r@[k]@));
        }
        assert forall|t: Seq<char>| token_set(text@).contains(t) implies exists|k: int|
            0 <= k < r@.len() && r@[k]@ == t by {
            assert(elem_set(r@).contains(t));
        }
    }
    r
}

} // verus!
