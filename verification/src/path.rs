//! Lexical paths: slash-separated components and the purely lexical
//! normalization that collapses `.` and `..` without touching the
//! filesystem.

use vstd::prelude::*;

verus! {

/// One component of a path. `Prefix` stands for a platform volume or device
/// token and is carried through opaquely; parsing never produces one.
#[derive(Clone, Debug, PartialEq, Eq)]
pub enum PathComp<S> {
    Prefix(S),
    RootDir,
    CurDir,
    ParentDir,
    Normal(S),
}

/// An executable component: names are held as strings.
pub type Comp = PathComp<String>;

/// The mathematical form of a component: names are sequences of characters.
pub type CompV = PathComp<Seq<char>>;

impl View for Comp {
    type V = CompV;

    open spec fn view(&self) -> CompV {
        match self {
            PathComp::Prefix(s) => PathComp::Prefix(s@),
            PathComp::RootDir => PathComp::RootDir,
            PathComp::CurDir => PathComp::CurDir,
            PathComp::ParentDir => PathComp::ParentDir,
            PathComp::Normal(s) => PathComp::Normal(s@),
        }
    }
}

impl DeepView for Comp {
    type V = CompV;

    open spec fn deep_view(&self) -> CompV {
        self.view()
    }
}

/// The deep view of a component vector is its elements' views, index by index.
pub proof fn lemma_comps_deep_view(v: &Vec<Comp>)
    ensures
        v.deep_view().len() == v@.len(),
        forall|j: int|
            #![trigger v.deep_view()[j]]
            #![trigger v@[j]]
            0 <= j < v@.len() ==> v.deep_view()[j] == v@[j].deep_view(),
{
}

impl Comp {
    /// A copy of the component whose view is the same.
    pub fn dup(&self) -> (r: Comp)
        ensures
            r@ == self@,
    {
        match self {
            PathComp::Prefix(s) => PathComp::Prefix(s.clone()),
            PathComp::RootDir => PathComp::RootDir,
            PathComp::CurDir => PathComp::CurDir,
            PathComp::ParentDir => PathComp::ParentDir,
            PathComp::Normal(s) => PathComp::Normal(s.clone()),
        }
    }
}

/// A copy of a component vector whose view is the same.
pub fn dup_comps(p: &Vec<Comp>) -> (r: Vec<Comp>)
    ensures
        r.deep_view() == p.deep_view(),
{
    let mut r: Vec<Comp> = Vec::new();
    let mut i: usize = 0;
    while i < p.len()
        invariant
            i <= p.len(),
            r@.len() == i,
            forall|j: int| 0 <= j < i ==> #[trigger] r@[j]@ == p@[j]@,
        decreases p.len() - i,
    {
        r.push(p[i].dup());
        i = i + 1;
    }
    proof {
        lemma_comps_deep_view(&r);
        lemma_comps_deep_view(p);
        assert(r.deep_view() =~= p.deep_view());
    }
    r
}

/// The effect of one component on the normalization stack.
pub open spec fn norm_push(stack: Seq<CompV>, c: CompV) -> Seq<CompV> {
    match c {
        PathComp::CurDir => stack,
        PathComp::ParentDir => {
            if stack.len() == 0 {
                stack.push(c)
            } else {
                match stack.last() {
                    PathComp::Prefix(_) => stack.push(c),
                    PathComp::RootDir => stack,
                    PathComp::CurDir => stack,
                    PathComp::ParentDir => stack.push(c),
                    PathComp::Normal(_) => stack.drop_last(),
                }
            }
        },
        _ => stack.push(c),
    }
}

/// The normalization stack after processing every component of `p` in order.
pub open spec fn norm_stack(p: Seq<CompV>) -> Seq<CompV>
    decreases p.len(),
{
    if p.len() == 0 {
        Seq::empty()
    } else {
        norm_push(norm_stack(p.drop_last()), p.last())
    }
}

/// Lexical normalization: `.` components vanish, `..` cancels a preceding
/// name, piles up where nothing can cancel it, and is absorbed by the root.
/// An empty outcome is rendered as the single component `.`.
pub open spec fn normalize_spec(p: Seq<CompV>) -> Seq<CompV> {
    let st = norm_stack(p);
    if st.len() == 0 {
        seq![PathComp::CurDir]
    } else {
        st
    }
}

/// Collapses `.` and `..` components of `p` lexically, never touching the
/// filesystem, and never failing.
pub fn normalize(p: &Vec<Comp>) -> (r: Vec<Comp>)
    ensures
        r.deep_view() == normalize_spec(p.deep_view()),
{
    let mut stack: Vec<Comp> = Vec::new();
    let ghost mut sdv = Seq::<CompV>::empty();
    let mut i: usize = 0;
    while i < p.len()
        invariant
            i <= p.len(),
            stack@.len() == sdv.len(),
            forall|j: int| 0 <= j < sdv.len() ==> #[trigger] stack@[j]@ == sdv[j],
            sdv == norm_stack(p.deep_view().take(i as int)),
        decreases p.len() - i,
    {
        proof {
            lemma_comps_deep_view(p);
            assert(p.deep_view().take(i + 1).drop_last() =~~= p.deep_view().take(i as int));
            assert(p.deep_view().take(i + 1).last() == p@[i as int]@);
        }
        match &p[i] {
            PathComp::CurDir => {},
            PathComp::ParentDir => {
                if stack.len() == 0 {
                    stack.push(PathComp::ParentDir);
                    proof {
                        sdv = sdv.push(PathComp::ParentDir);
                    }
                } else {
                    proof {
                        assert(stack@[stack@.len() - 1]@ == sdv.last());
                    }
                    match &stack[stack.len() - 1] {
                        PathComp::RootDir => {},
                        PathComp::CurDir => {},
                        PathComp::Normal(_) => {
                            stack.pop();
                            proof {
                                sdv = sdv.drop_last();
                            }
                        },
                        PathComp::Prefix(_) => {
                            stack.push(PathComp::ParentDir);
                            proof {
                                sdv = sdv.push(PathComp::ParentDir);
                            }
                        },
                        PathComp::ParentDir => {
                            stack.push(PathComp::ParentDir);
                            proof {
                                sdv = sdv.push(PathComp::ParentDir);
                            }
                        },
                    }
                }
            },
            c => {
                stack.push(c.dup());
                proof {
                    sdv = sdv.push(p@[i as int]@);
                }
            },
        }
        i = i + 1;
    }
    proof {
        assert(p.deep_view().take(p.len() as int) =~~= p.deep_view());
    }
    if stack.len() == 0 {
        let mut r: Vec<Comp> = Vec::new();
        r.push(PathComp::CurDir);
        proof {
            lemma_comps_deep_view(&r);
            assert(r.deep_view() =~= seq![PathComp::<Seq<char>>::CurDir]);
        }
        r
    } else {
        proof {
            lemma_comps_deep_view(&stack);
            assert(stack.deep_view() =~= sdv);
        }
        stack
    }
}

/// The invariant of a normalized stack: no `.` component, and `..` only
/// where nothing before it could cancel it.
pub open spec fn is_norm_stack(s: Seq<CompV>) -> bool {
    forall|i: int|
        0 <= i < s.len() ==> (!(#[trigger] s[i] is CurDir) && (s[i] is ParentDir ==> i == 0 || s[i
            - 1] is ParentDir || s[i - 1] is Prefix))
}

proof fn lemma_norm_push_preserves(stack: Seq<CompV>, c: CompV)
    requires
        is_norm_stack(stack),
    ensures
        is_norm_stack(norm_push(stack, c)),
{
    let r = norm_push(stack, c);
    match c {
        PathComp::CurDir => {},
        PathComp::ParentDir => {
            if stack.len() == 0 {
                assert forall|i: int| 0 <= i < r.len() implies (!(#[trigger] r[i] is CurDir) && (
                r[i] is ParentDir ==> i == 0 || r[i - 1] is ParentDir || r[i - 1] is Prefix)) by {}
            } else {
                match stack.last() {
                    PathComp::Prefix(_) | PathComp::ParentDir => {
                        assert forall|i: int| 0 <= i < r.len() implies (!(#[trigger] r[i]
                            is CurDir) && (r[i] is ParentDir ==> i == 0 || r[i - 1] is ParentDir
                            || r[i - 1] is Prefix)) by {
                            if i < stack.len() {
                                assert(r[i] == stack[i]);
                            }
                        }
                    },
                    _ => {},
                }
            }
        },
        _ => {
            assert forall|i: int| 0 <= i < r.len() implies (!(#[trigger] r[i] is CurDir) && (r[i]
                is ParentDir ==> i == 0 || r[i - 1] is ParentDir || r[i - 1] is Prefix)) by {
                if i < stack.len() {
                    assert(r[i] == stack[i]);
                }
            }
        },
    }
}

proof fn lemma_norm_stack_normed(p: Seq<CompV>)
    ensures
        is_norm_stack(norm_stack(p)),
    decreases p.len(),
{
    if p.len() == 0 {
    } else {
        lemma_norm_stack_normed(p.drop_last());
        lemma_norm_push_preserves(norm_stack(p.drop_last()), p.last());
    }
}

proof fn lemma_normed_fixed(s: Seq<CompV>)
    requires
        is_norm_stack(s),
    ensures
        norm_stack(s) == s,
    decreases s.len(),
{
    if s.len() == 0 {
        assert(norm_stack(s) =~= s);
    } else {
        assert(is_norm_stack(s.drop_last()));
        lemma_normed_fixed(s.drop_last());
        match s.last() {
            PathComp::CurDir => {
                assert(s[s.len() - 1] is CurDir);
            },
            PathComp::ParentDir => {
                assert(s[s.len() - 1] is ParentDir);
                if s.len() == 1 {
                    assert(norm_stack(s) =~= s);
                } else {
                    assert(s[s.len() - 2] is ParentDir || s[s.len() - 2] is Prefix);
                    assert(norm_stack(s) =~= s);
                }
            },
            _ => {
                assert(norm_stack(s) =~= s);
            },
        }
    }
}

/// Normalization is idempotent: normalizing an already-normalized path
/// leaves it unchanged.
pub proof fn lemma_normalize_idempotent(p: Seq<CompV>)
    ensures
        normalize_spec(normalize_spec(p)) == normalize_spec(p),
{
    let st = norm_stack(p);
    lemma_norm_stack_normed(p);
    if st.len() == 0 {
        let dot = seq![PathComp::<Seq<char>>::CurDir];
        assert(dot.drop_last() =~= Seq::<CompV>::empty());
        assert(norm_stack(dot) == norm_push(norm_stack(dot.drop_last()), PathComp::CurDir));
        assert(norm_stack(dot).len() == 0);
    } else {
        lemma_normed_fixed(st);
    }
}

} // verus!
