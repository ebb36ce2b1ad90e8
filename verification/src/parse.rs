//! Turning a path string into components and components back into a string.
//! Separators are slashes; redundant separators collapse, `.` survives only
//! as a leading component, and `..` becomes a parent-directory component.

use crate::chars::{chars_to_string, str_chars};
use crate::path::{Comp, CompV, PathComp};
use vstd::prelude::*;
use vstd::string::StringExecFns;

verus! {

/// The slash-separated groups of a character sequence. Splitting the empty
/// sequence gives one empty group; every separator opens a new group.
pub open spec fn split_slashes(s: Seq<char>) -> Seq<Seq<char>>
    decreases s.len(),
{
    if s.len() == 0 {
        seq![Seq::empty()]
    } else if s[0] == '/' {
        seq![Seq::<char>::empty()] + split_slashes(s.drop_first())
    } else {
        let rest = split_slashes(s.drop_first());
        seq![seq![s[0]] + rest[0]] + rest.drop_first()
    }
}

proof fn lemma_split_nonempty(s: Seq<char>)
    ensures
        split_slashes(s).len() >= 1,
    decreases s.len(),
{
    if s.len() == 0 {
    } else {
        lemma_split_nonempty(s.drop_first())
    }
}

proof fn lemma_split_snoc(t: Seq<char>, c: char)
    ensures
        c == '/' ==> split_slashes(t.push(c)) == split_slashes(t).push(Seq::empty()),
        c != '/' ==> split_slashes(t.push(c)) == split_slashes(t).update(
            split_slashes(t).len() - 1,
            split_slashes(t).last().push(c),
        ),
    decreases t.len(),
{
    lemma_split_nonempty(t);
    assert(t.push(c)[t.len() as int] == c);
    if t.len() == 0 {
        assert(split_slashes(Seq::<char>::empty()) == seq![Seq::<char>::empty()]);
        if c == '/' {
            assert(t.push(c).drop_first() =~= Seq::<char>::empty());
            assert(split_slashes(t.push(c)) =~= split_slashes(t).push(Seq::empty()));
        } else {
            assert(t.push(c).drop_first() =~= Seq::<char>::empty());
            assert(seq![c] + split_slashes(Seq::<char>::empty())[0] =~= seq![Seq::<char>::empty()
            ].last().push(c));
            assert(split_slashes(t.push(c)) =~= split_slashes(t).update(
                0,
                split_slashes(t).last().push(c),
            ));
        }
    } else {
        lemma_split_snoc(t.drop_first(), c);
        lemma_split_nonempty(t.drop_first());
        assert(t.push(c)[0] == t[0]);
        assert(t.push(c).drop_first() =~= t.drop_first().push(c));
        if c == '/' {
            if t[0] == '/' {
                assert(split_slashes(t.push(c)) =~= split_slashes(t).push(Seq::empty()));
            } else {
                assert(split_slashes(t.push(c)) =~= split_slashes(t).push(Seq::empty()));
            }
        } else {
            let st = split_slashes(t);
            let std_ = split_slashes(t.drop_first());
            if t[0] == '/' {
                assert(st == seq![Seq::<char>::empty()] + std_);
                assert(st.last() == std_.last());
                assert(split_slashes(t.push(c)) =~= st.update(st.len() - 1, st.last().push(c)));
            } else {
                assert(st == seq![seq![t[0]] + std_[0]] + std_.drop_first());
                if std_.len() == 1 {
                    assert(st.last() == seq![t[0]] + std_[0]);
                    assert(split_slashes(t.push(c)) =~= st.update(
                        st.len() - 1,
                        st.last().push(c),
                    ));
                } else {
                    assert(st.last() == std_.last());
                    assert(split_slashes(t.push(c)) =~= st.update(
                        st.len() - 1,
                        st.last().push(c),
                    ));
                }
            }
        }
    }
}

/// The component a non-empty, non-`.` group stands for.
pub open spec fn seg_comp(g: Seq<char>) -> CompV {
    if g == seq!['.', '.'] {
        PathComp::ParentDir
    } else {
        PathComp::Normal(g)
    }
}

/// The components of the groups: empty and `.` groups are dropped, `..`
/// becomes a parent-directory component, anything else a name.
pub open spec fn segs_comps(gs: Seq<Seq<char>>) -> Seq<CompV>
    decreases gs.len(),
{
    if gs.len() == 0 {
        Seq::empty()
    } else {
        let rest = segs_comps(gs.drop_last());
        let g = gs.last();
        if g.len() == 0 || g == seq!['.'] {
            rest
        } else {
            rest.push(seg_comp(g))
        }
    }
}

/// The components of a path string: a leading slash is the root, a leading
/// `.` group survives as the current directory, and the groups follow.
pub open spec fn parse_spec(s: Seq<char>) -> Seq<CompV> {
    let gs = split_slashes(s);
    let lead: Seq<CompV> = if s.len() > 0 && s[0] == '/' {
        seq![PathComp::RootDir]
    } else if gs[0] == seq!['.'] {
        seq![PathComp::CurDir]
    } else {
        Seq::empty()
    };
    lead + segs_comps(gs)
}

/// Splits `s` at slashes into its character groups.
fn split_groups(cs: &Vec<char>) -> (r: Vec<Vec<char>>)
    ensures
        r.deep_view() == split_slashes(cs@),
        r@.len() >= 1,
{
    let mut groups: Vec<Vec<char>> = Vec::new();
    let ghost mut gdv = Seq::<Seq<char>>::empty();
    let mut cur: Vec<char> = Vec::new();
    let mut i: usize = 0;
    proof {
        assert(cs@.take(0) =~= Seq::<char>::empty());
    }
    while i < cs.len()
        invariant
            i <= cs.len(),
            groups@.len() == gdv.len(),
            forall|j: int| 0 <= j < gdv.len() ==> #[trigger] groups@[j]@ == gdv[j],
            split_slashes(cs@.take(i as int)) == gdv.push(cur@),
        decreases cs.len() - i,
    {
        proof {
            assert(cs@.take(i + 1) =~= cs@.take(i as int).push(cs@[i as int]));
            lemma_split_snoc(cs@.take(i as int), cs@[i as int]);
        }
        if cs[i] == '/' {
            groups.push(cur);
            cur = Vec::new();
            proof {
                gdv = gdv.push(split_slashes(cs@.take(i as int)).last());
                assert(split_slashes(cs@.take(i + 1)) =~= gdv.push(cur@));
            }
        } else {
            cur.push(cs[i]);
            proof {
                assert(split_slashes(cs@.take(i + 1)) =~= gdv.push(cur@));
            }
        }
        i = i + 1;
    }
    groups.push(cur);
    proof {
        gdv = gdv.push(cur@);
        assert(cs@.take(cs@.len() as int) =~= cs@);
        crate::chars::lemma_groups_deep_view(&groups);
        assert(groups.deep_view() =~= gdv);
    }
    groups
}

/// Parses a path string into its components. Parsing never produces a
/// `Prefix` component.
pub fn parse_path(s: &str) -> (r: Vec<Comp>)
    ensures
        r.deep_view() == parse_spec(s@),
{
    let cs = str_chars(s);
    let groups = split_groups(&cs);
    let ghost gs = split_slashes(s@);
    proof {
        crate::chars::lemma_groups_deep_view(&groups);
        assert(forall|k: int| 0 <= k < gs.len() ==> #[trigger] groups@[k]@ == gs[k]);
    }
    let mut r: Vec<Comp> = Vec::new();
    let ghost mut rdv = Seq::<CompV>::empty();
    if cs.len() > 0 && cs[0] == '/' {
        r.push(PathComp::RootDir);
        proof {
            rdv = rdv.push(PathComp::RootDir);
        }
    } else {
        let g0 = &groups[0];
        if g0.len() == 1 && g0[0] == '.' {
            proof {
                assert(groups@[0]@ =~= seq!['.']);
            }
            r.push(PathComp::CurDir);
            proof {
                rdv = rdv.push(PathComp::CurDir);
            }
        } else {
            proof {
                assert(groups@[0]@ != seq!['.']) by {
                    if groups@[0]@ == seq!['.'] {
                        assert(groups@[0]@.len() == 1);
                    }
                }
            }
        }
    }
    proof {
        assert(rdv == (if s@.len() > 0 && s@[0] == '/' {
            seq![PathComp::<Seq<char>>::RootDir]
        } else if gs[0] == seq!['.'] {
            seq![PathComp::<Seq<char>>::CurDir]
        } else {
            Seq::<CompV>::empty()
        }));
    }
    let ghost lead = rdv;
    let mut j: usize = 0;
    proof {
        assert(gs.take(0) =~= Seq::<Seq<char>>::empty());
    }
    while j < groups.len()
        invariant
            j <= groups@.len(),
            groups@.len() == gs.len(),
            forall|k: int| 0 <= k < gs.len() ==> #[trigger] groups@[k]@ == gs[k],
            r@.len() == rdv.len(),
            forall|k: int| 0 <= k < rdv.len() ==> #[trigger] r@[k]@ == rdv[k],
            rdv == lead + segs_comps(gs.take(j as int)),
        decreases groups@.len() - j,
    {
        proof {
            assert(gs.take(j + 1).drop_last() =~= gs.take(j as int));
            assert(gs.take(j + 1).last() == groups@[j as int]@);
        }
        let g = &groups[j];
        if g.len() == 0 || (g.len() == 1 && g[0] == '.') {
            proof {
                if g@.len() == 1 && g@[0] == '.' {
                    assert(g@ =~= seq!['.']);
                }
            }
        } else if g.len() == 2 && g[0] == '.' && g[1] == '.' {
            proof {
                assert(g@ =~= seq!['.', '.']);
            }
            r.push(PathComp::ParentDir);
            proof {
                rdv = rdv.push(PathComp::ParentDir);
            }
        } else {
            proof {
                assert(g@ != seq!['.']) by {
                    if g@ == seq!['.'] {
                        assert(g@.len() == 1);
                    }
                }
                assert(g@ != seq!['.', '.']) by {
                    if g@ == seq!['.', '.'] {
                        assert(g@.len() == 2);
                    }
                }
            }
            let name = chars_to_string(g);
            r.push(PathComp::Normal(name));
            proof {
                rdv = rdv.push(PathComp::Normal(g@));
            }
        }
        j = j + 1;
    }
    proof {
        assert(gs.take(gs.len() as int) =~= gs);
        assert(r.deep_view() =~= rdv);
    }
    r
}

/// The text of one component.
pub open spec fn comp_str(c: CompV) -> Seq<char> {
    match c {
        PathComp::Prefix(s) => s,
        PathComp::RootDir => seq!['/'],
        PathComp::CurDir => seq!['.'],
        PathComp::ParentDir => seq!['.', '.'],
        PathComp::Normal(s) => s,
    }
}

/// The text of a path: components joined by slashes, where the root brings
/// its own slash.
pub open spec fn render_spec(p: Seq<CompV>) -> Seq<char>
    decreases p.len(),
{
    if p.len() == 0 {
        Seq::empty()
    } else if p.len() == 1 {
        comp_str(p[0])
    } else if p.len() == 2 && p[0] is RootDir {
        comp_str(p[0]) + comp_str(p[1])
    } else {
        render_spec(p.drop_last()) + seq!['/'] + comp_str(p.last())
    }
}

/// Appends the text of one component to `out`.
fn push_comp_str(out: &mut String, c: &Comp)
    ensures
        final (out)@ == old(out)@ + comp_str(c@),
{
    match c {
        PathComp::Prefix(s) => out.append(s.as_str()),
        PathComp::RootDir => {
            proof {
                reveal_strlit("/");
                assert("/"@ =~= seq!['/']);
            }
            out.append("/");
        },
        PathComp::CurDir => {
            proof {
                reveal_strlit(".");
                assert("."@ =~= seq!['.']);
            }
            out.append(".");
        },
        PathComp::ParentDir => {
            proof {
                reveal_strlit("..");
                assert(".."@ =~= seq!['.', '.']);
            }
            out.append("..");
        },
        PathComp::Normal(s) => out.append(s.as_str()),
    }
}

/// The text of one component, as a fresh string.
pub fn comp_string(c: &Comp) -> (r: String)
    ensures
        r@ == comp_str(c@),
{
    let mut out = String::new();
    push_comp_str(&mut out, c);
    proof {
        assert(out@ =~= comp_str(c@));
    }
    out
}

/// Renders components back into a path string.
pub fn render_path(p: &Vec<Comp>) -> (r: String)
    ensures
        r@ == render_spec(p.deep_view()),
{
    let mut out = String::new();
    let mut i: usize = 0;
    proof {
        crate::path::lemma_comps_deep_view(p);
    }
    while i < p.len()
        invariant
            i <= p@.len(),
            p.deep_view().len() == p@.len(),
            forall|j: int| 0 <= j < p@.len() ==> p.deep_view()[j] == #[trigger] p@[j]@,
            out@ == render_spec(p.deep_view().take(i as int)),
        decreases p@.len() - i,
    {
        proof {
            assert(p.deep_view().take(i + 1).drop_last() =~= p.deep_view().take(i as int));
            assert(p.deep_view().take(i + 1).last() == p@[i as int]@);
        }
        if i == 0 {
        } else if i == 1 && matches!(&p[0], PathComp::RootDir) {
            proof {
                assert(p.deep_view().take(2)[0] == p@[0]@);
            }
        } else {
            proof {
                reveal_strlit("/");
                assert("/"@ =~= seq!['/']);
            }
            out.append("/");
        }
        let c = &p[i];
        push_comp_str(&mut out, c);
        i = i + 1;
    }
    proof {
        assert(p.deep_view().take(p@.len() as int) =~= p.deep_view());
    }
    out
}

} // verus!
