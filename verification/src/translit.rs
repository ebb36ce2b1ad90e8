//! The transliteration engine: expands a directory name into every pinyin
//! rendering it can have, one candidate per way of reading each character.

use crate::chars::{chars_to_string, str_chars};
use pinyin::ToPinyinMulti;
use vstd::prelude::*;
use vstd::string::StringExecFns;

verus! {

/// Whether a reading is rendered whole or only by its first letter.
#[derive(Clone, Copy, Debug)]
pub enum PinyinStyle {
    Plain,
    FirstLetter,
}

/// The plain pinyin readings of a character, in the pronunciation table's
/// order, or nothing for a character the table does not know.
pub uninterp spec fn pinyin_readings(c: char) -> Option<Seq<Seq<char>>>;

/// Relies on pinyin::ToPinyinMulti::to_pinyin_multi for `char` and on
/// pinyin::Pinyin::plain: the crate's built-in table lists each character's
/// plain readings, so the result depends on the character alone.
#[verifier::external_body]
fn char_readings(c: char) -> (r: Option<Vec<String>>)
    ensures
        r is Some <==> pinyin_readings(c) is Some,
        r is Some ==> r->Some_0.deep_view() == pinyin_readings(c)->Some_0,
{
    match c.to_pinyin_multi() {
        None => None,
        Some(multi) => {
            let mut v = Vec::new();
            for p in multi {
                v.push(p.plain().to_owned());
            }
            Some(v)
        },
    }
}

/// The deep view of a vector of strings is its elements' character
/// sequences, index by index.
pub proof fn lemma_strings_deep_view(v: &Vec<String>)
    ensures
        v.deep_view().len() == v@.len(),
        forall|j: int|
            #![trigger v.deep_view()[j]]
            #![trigger v@[j]]
            0 <= j < v@.len() ==> v.deep_view()[j] == v@[j]@,
{
}

/// The rounded-front-vowel letter is rewritten to the ASCII letter `v`.
pub open spec fn rewrite_u(s: Seq<char>) -> Seq<char> {
    s.map_values(
        |ch: char|
            if ch == 'ü' {
                'v'
            } else {
                ch
            },
    )
}

/// One reading rendered per style: the whole reading, or its first letter.
pub open spec fn render_reading_spec(r: Seq<char>, style: PinyinStyle) -> Seq<char> {
    match style {
        PinyinStyle::Plain => rewrite_u(r),
        PinyinStyle::FirstLetter => if r.len() == 0 {
            r
        } else {
            rewrite_u(seq![r[0]])
        },
    }
}

fn render_reading(s: &String, style: PinyinStyle) -> (r: String)
    ensures
        r@ == render_reading_spec(s@, style),
{
    let cs = str_chars(s.as_str());
    let mut out: Vec<char> = Vec::new();
    match style {
        PinyinStyle::Plain => {
            let mut i: usize = 0;
            proof {
                assert(out@ =~= rewrite_u(cs@.take(0)));
            }
            while i < cs.len()
                invariant
                    i <= cs@.len(),
                    out@ == rewrite_u(cs@.take(i as int)),
                decreases cs@.len() - i,
            {
                if cs[i] == 'ü' {
                    out.push('v');
                } else {
                    out.push(cs[i]);
                }
                proof {
                    assert(out@ =~= rewrite_u(cs@.take(i + 1)));
                }
                i = i + 1;
            }
            proof {
                assert(cs@.take(cs@.len() as int) =~= cs@);
            }
        },
        PinyinStyle::FirstLetter => {
            if cs.len() > 0 {
                if cs[0] == 'ü' {
                    out.push('v');
                } else {
                    out.push(cs[0]);
                }
                proof {
                    assert(out@ =~= rewrite_u(seq![cs@[0]]));
                }
            }
        },
    }
    chars_to_string(&out)
}

/// True exactly when some element of `v` holds the characters of `x`.
fn contains_string(v: &Vec<String>, x: &String) -> (r: bool)
    ensures
        r == v.deep_view().contains(x@),
{
    proof {
        lemma_strings_deep_view(v);
    }
    let mut j: usize = 0;
    while j < v.len()
        invariant
            j <= v@.len(),
            v.deep_view().len() == v@.len(),
            forall|k: int|
                #![trigger v.deep_view()[k]]
                0 <= k < v@.len() ==> v.deep_view()[k] == v@[k]@,
            forall|k: int| 0 <= k < j ==> #[trigger] v@[k]@ != x@,
        decreases v@.len() - j,
    {
        if v[j].eq(x) {
            proof {
                assert(v.deep_view()[j as int] == x@);
            }
            return true;
        }
        j = j + 1;
    }
    proof {
        if v.deep_view().contains(x@) {
            let k = choose|k: int| 0 <= k < v.deep_view().len() && v.deep_view()[k] == x@;
            assert(v@[k]@ == x@);
        }
    }
    false
}

/// Keeps the first occurrence of each rendering, in order.
pub open spec fn dedup_first(s: Seq<Seq<char>>) -> Seq<Seq<char>>
    decreases s.len(),
{
    if s.len() == 0 {
        Seq::empty()
    } else {
        let rest = dedup_first(s.drop_last());
        if rest.contains(s.last()) {
            rest
        } else {
            rest.push(s.last())
        }
    }
}

/// The candidate renderings of one character: its readings rendered per
/// style, duplicates collapsed; a character without readings stands for
/// itself, whatever the style.
pub open spec fn char_pool_spec(c: char, style: PinyinStyle) -> Seq<Seq<char>> {
    match pinyin_readings(c) {
        Option::None => seq![seq![c]],
        Option::Some(rs) => dedup_first(
            rs.map_values(|r: Seq<char>| render_reading_spec(r, style)),
        ),
    }
}

/// The candidate renderings of one character, as strings.
fn char_pool(c: char, style: PinyinStyle) -> (r: Vec<String>)
    ensures
        r.deep_view() == char_pool_spec(c, style),
{
    match char_readings(c) {
        None => {
            let mut v: Vec<char> = Vec::new();
            v.push(c);
            let s = chars_to_string(&v);
            let mut out: Vec<String> = Vec::new();
            out.push(s);
            proof {
                lemma_strings_deep_view(&out);
                assert(v@ =~= seq![c]);
                assert(out.deep_view() =~= seq![seq![c]]);
            }
            out
        },
        Some(rs) => {
            let ghost readings = pinyin_readings(c)->Some_0;
            let ghost rendered = readings.map_values(
                |r: Seq<char>| render_reading_spec(r, style),
            );
            proof {
                lemma_strings_deep_view(&rs);
            }
            let mut pool: Vec<String> = Vec::new();
            let ghost mut pdv = Seq::<Seq<char>>::empty();
            let mut k: usize = 0;
            proof {
                assert(rendered.take(0) =~= Seq::<Seq<char>>::empty());
                assert(dedup_first(rendered.take(0)) == Seq::<Seq<char>>::empty());
            }
            while k < rs.len()
                invariant
                    k <= rs@.len(),
                    rs@.len() == readings.len(),
                    rendered.len() == readings.len(),
                    forall|t: int| 0 <= t < rs@.len() ==> #[trigger] rs@[t]@ == readings[t],
                    forall|t: int|
                        0 <= t < rendered.len() ==> #[trigger] rendered[t]
                            == render_reading_spec(readings[t], style),
                    pool@.len() == pdv.len(),
                    forall|t: int| 0 <= t < pdv.len() ==> #[trigger] pool@[t]@ == pdv[t],
                    pdv == dedup_first(rendered.take(k as int)),
                decreases rs@.len() - k,
            {
                proof {
                    assert(rendered.take(k + 1).drop_last() =~= rendered.take(k as int));
                    assert(rendered.take(k + 1).last() == rendered[k as int]);
                }
                let cand = render_reading(&rs[k], style);
                proof {
                    lemma_strings_deep_view(&pool);
                    assert(pool.deep_view() =~= pdv);
                }
                let dup = contains_string(&pool, &cand);
                if !dup {
                    pool.push(cand);
                    proof {
                        pdv = pdv.push(rendered[k as int]);
                    }
                }
                k = k + 1;
            }
            proof {
                assert(rendered.take(rendered.len() as int) =~= rendered);
                lemma_strings_deep_view(&pool);
                assert(pool.deep_view() =~= pdv);
            }
            pool
        },
    }
}

/// Every concatenation of one element of `xs` with one element of `ys`,
/// grouped by the element of `xs`, in order.
pub open spec fn extend_spec(xs: Seq<Seq<char>>, ys: Seq<Seq<char>>) -> Seq<Seq<char>>
    decreases xs.len(),
{
    if xs.len() == 0 {
        Seq::empty()
    } else {
        extend_spec(xs.drop_last(), ys) + ys.map_values(|y: Seq<char>| xs.last() + y)
    }
}

/// The concatenations picking one candidate from each pool, in order.
pub open spec fn product_spec(pools: Seq<Seq<Seq<char>>>) -> Seq<Seq<char>>
    decreases pools.len(),
{
    if pools.len() == 0 {
        seq![Seq::<char>::empty()]
    } else {
        extend_spec(product_spec(pools.drop_last()), pools.last())
    }
}

/// Every transliteration of `s`: one candidate per character, concatenated
/// in character order. The empty name deliberately has no transliteration
/// at all, rather than one empty one.
pub open spec fn translits(s: Seq<char>, style: PinyinStyle) -> Seq<Seq<char>> {
    if s.len() == 0 {
        Seq::empty()
    } else {
        product_spec(s.map_values(|c: char| char_pool_spec(c, style)))
    }
}

/// Expands `string` into all of its pinyin transliterations under `style`.
pub fn to_pinyin(string: &str, style: &PinyinStyle) -> (r: Vec<String>)
    ensures
        r.deep_view() == translits(string@, *style),
{
    let cs = str_chars(string);
    if cs.len() == 0 {
        let r: Vec<String> = Vec::new();
        proof {
            assert(r.deep_view() =~= translits(string@, *style));
        }
        return r;
    }
    let ghost pools = string@.map_values(|c: char| char_pool_spec(c, *style));
    let mut acc: Vec<String> = Vec::new();
    acc.push(String::new());
    let ghost mut adv = seq![Seq::<char>::empty()];
    proof {
        assert(pools.take(0) =~= Seq::<Seq<Seq<char>>>::empty());
    }
    let mut i: usize = 0;
    while i < cs.len()
        invariant
            i <= cs@.len(),
            cs@ == string@,
            pools == string@.map_values(|c: char| char_pool_spec(c, *style)),
            pools.len() == cs@.len(),
            acc@.len() == adv.len(),
            forall|t: int| 0 <= t < adv.len() ==> #[trigger] acc@[t]@ == adv[t],
            adv == product_spec(pools.take(i as int)),
        decreases cs@.len() - i,
    {
        proof {
            assert(pools.take(i + 1).drop_last() =~= pools.take(i as int));
            assert(pools.take(i + 1).last() == pools[i as int]);
            assert(pools[i as int] == char_pool_spec(cs@[i as int], *style));
        }
        let pool = char_pool(cs[i], *style);
        proof {
            lemma_strings_deep_view(&pool);
        }
        let ghost pooldv = pool.deep_view();
        let mut next: Vec<String> = Vec::new();
        let ghost mut ndv = Seq::<Seq<char>>::empty();
        let mut a: usize = 0;
        proof {
            assert(adv.take(0) =~= Seq::<Seq<char>>::empty());
            assert(ndv =~= extend_spec(adv.take(0), pooldv));
        }
        while a < acc.len()
            invariant
                a <= acc@.len(),
                acc@.len() == adv.len(),
                forall|t: int| 0 <= t < adv.len() ==> #[trigger] acc@[t]@ == adv[t],
                pool@.len() == pooldv.len(),
                forall|t: int| 0 <= t < pooldv.len() ==> #[trigger] pool@[t]@ == pooldv[t],
                next@.len() == ndv.len(),
                forall|t: int| 0 <= t < ndv.len() ==> #[trigger] next@[t]@ == ndv[t],
                ndv == extend_spec(adv.take(a as int), pooldv),
            decreases acc@.len() - a,
        {
            proof {
                assert(adv.take(a + 1).drop_last() =~= adv.take(a as int));
                assert(adv.take(a + 1).last() == adv[a as int]);
            }
            let mut b: usize = 0;
            while b < pool.len()
                invariant
                    a < acc@.len(),
                    acc@.len() == adv.len(),
                    forall|t: int| 0 <= t < adv.len() ==> #[trigger] acc@[t]@ == adv[t],
                    b <= pool@.len(),
                    pool@.len() == pooldv.len(),
                    forall|t: int| 0 <= t < pooldv.len() ==> #[trigger] pool@[t]@ == pooldv[t],
                    next@.len() == ndv.len(),
                    forall|t: int| 0 <= t < ndv.len() ==> #[trigger] next@[t]@ == ndv[t],
                    ndv == extend_spec(adv.take(a as int), pooldv) + pooldv.take(
                        b as int,
                    ).map_values(|y: Seq<char>| adv[a as int] + y),
                decreases pool@.len() - b,
            {
                let mut joined = acc[a].clone();
                joined.append(pool[b].as_str());
                next.push(joined);
                proof {
                    ndv = ndv.push(adv[a as int] + pooldv[b as int]);
                    assert(pooldv.take(b + 1).map_values(|y: Seq<char>| adv[a as int] + y)
                        =~= pooldv.take(b as int).map_values(|y: Seq<char>| adv[a as int] + y).push(
                        adv[a as int] + pooldv[b as int],
                    ));
                }
                b = b + 1;
            }
            proof {
                assert(pooldv.take(pooldv.len() as int) =~= pooldv);
                assert(ndv =~= extend_spec(adv.take(a + 1), pooldv));
            }
            a = a + 1;
        }
        proof {
            assert(adv.take(adv.len() as int) =~= adv);
            adv = ndv;
        }
        acc = next;
        i = i + 1;
    }
    proof {
        assert(pools.take(pools.len() as int) =~= pools);
        lemma_strings_deep_view(&acc);
        assert(acc.deep_view() =~= adv);
    }
    acc
}

proof fn lemma_product_singletons(s: Seq<char>, style: PinyinStyle, n: int)
    requires
        0 <= n <= s.len(),
        forall|i: int| 0 <= i < s.len() ==> #[trigger] pinyin_readings(s[i]) is None,
    ensures
        product_spec(s.map_values(|c: char| char_pool_spec(c, style)).take(n)) == seq![s.take(n)],
    decreases n,
{
    let pools = s.map_values(|c: char| char_pool_spec(c, style));
    if n == 0 {
        assert(pools.take(0) =~= Seq::<Seq<Seq<char>>>::empty());
        assert(s.take(0) =~= Seq::<char>::empty());
    } else {
        lemma_product_singletons(s, style, n - 1);
        assert(pools.take(n).drop_last() =~= pools.take(n - 1));
        assert(pools.take(n).last() == char_pool_spec(s[n - 1], style));
        assert(char_pool_spec(s[n - 1], style) == seq![seq![s[n - 1]]]);
        let xs = seq![s.take(n - 1)];
        let ys = seq![seq![s[n - 1]]];
        assert(xs.drop_last() =~= Seq::<Seq<char>>::empty());
        assert(extend_spec(Seq::<Seq<char>>::empty(), ys) == Seq::<Seq<char>>::empty());
        assert(ys.map_values(|y: Seq<char>| xs.last() + y) =~= seq![s.take(n - 1) + seq![s[n
            - 1]]]);
        assert(extend_spec(xs, ys) =~= seq![s.take(n - 1) + seq![s[n - 1]]]);
        assert(s.take(n - 1) + seq![s[n - 1]] =~= s.take(n));
    }
}

/// The empty name has no transliteration at all — not one empty
/// transliteration — whatever the style.
pub proof fn lemma_empty_name_no_candidates(style: PinyinStyle)
    ensures
        translits(Seq::empty(), style) == Seq::<Seq<char>>::empty(),
{
}

/// A name in which no character has a known reading transliterates to
/// itself and to nothing else, whatever the style.
pub proof fn lemma_no_readings_identity(s: Seq<char>, style: PinyinStyle)
    requires
        s.len() > 0,
        forall|i: int| 0 <= i < s.len() ==> #[trigger] pinyin_readings(s[i]) is None,
    ensures
        translits(s, style) == seq![s],
{
    lemma_product_singletons(s, style, s.len() as int);
    let pools = s.map_values(|c: char| char_pool_spec(c, style));
    assert(pools.take(s.len() as int) =~= pools);
    assert(s.take(s.len() as int) =~= s);
}

/// The number of candidate picks: the product of the pool sizes.
pub open spec fn pool_sizes_product(pools: Seq<Seq<Seq<char>>>) -> nat
    decreases pools.len(),
{
    if pools.len() == 0 {
        1
    } else {
        pool_sizes_product(pools.drop_last()) * pools.last().len()
    }
}

proof fn lemma_extend_len(xs: Seq<Seq<char>>, ys: Seq<Seq<char>>)
    ensures
        extend_spec(xs, ys).len() == xs.len() * ys.len(),
    decreases xs.len(),
{
    if xs.len() == 0 {
    } else {
        lemma_extend_len(xs.drop_last(), ys);
        let n = xs.len();
        let m = ys.len();
        assert((n - 1) * m + m == n * m) by (nonlinear_arith)
            requires
                n >= 1,
        ;
    }
}

proof fn lemma_product_len(pools: Seq<Seq<Seq<char>>>)
    ensures
        product_spec(pools).len() == pool_sizes_product(pools),
    decreases pools.len(),
{
    if pools.len() == 0 {
    } else {
        lemma_product_len(pools.drop_last());
        lemma_extend_len(product_spec(pools.drop_last()), pools.last());
    }
}

/// Characters with several readings multiply the candidates: a non-empty
/// name has exactly as many transliterations as the product, over its
/// characters, of the number of distinct renderings of each.
pub proof fn lemma_translit_count(s: Seq<char>, style: PinyinStyle)
    requires
        s.len() > 0,
    ensures
        translits(s, style).len() == pool_sizes_product(
            s.map_values(|c: char| char_pool_spec(c, style)),
        ),
{
    lemma_product_len(s.map_values(|c: char| char_pool_spec(c, style)));
}

} // verus!
