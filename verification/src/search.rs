//! The breadth-first matcher: splits a normalized pattern into an anchor
//! and query segments, then expands search states against directory
//! listings that the caller supplies, matching each listed name's
//! transliterations against the next segment.

use crate::chars::str_starts_with;
use crate::parse::{comp_str, comp_string, parse_path, parse_spec};
use crate::path::{dup_comps, normalize, normalize_spec, Comp, CompV, PathComp};
use crate::translit::{to_pinyin, translits, PinyinStyle};
use vstd::prelude::*;

verus! {

/// Whether a query segment must equal a candidate or only start it.
#[derive(Clone, Copy, Debug)]
pub enum MatchMode {
    Exact,
    Prefix,
}

/// What the filesystem reports about one entry's kind. `Unknown` stands
/// for an entry whose kind could not be inspected; the matcher fails open
/// and treats it as a directory.
#[derive(Clone, Copy, Debug)]
pub enum EntryKind {
    Dir,
    NotDir,
    Unknown,
}

/// One directory entry as the caller hands it in. A name that is not
/// valid text is `None`; such an entry is skipped, never fatal.
pub struct DirEntry {
    pub name: Option<String>,
    pub kind: EntryKind,
}

/// The anchor components: a leading run of prefixes and parent-directory
/// components, closed by the first root or current-directory component.
pub open spec fn anchor_of(p: Seq<CompV>) -> Seq<CompV>
    decreases p.len(),
{
    if p.len() == 0 {
        Seq::empty()
    } else {
        match p[0] {
            PathComp::Prefix(_) => seq![p[0]] + anchor_of(p.drop_first()),
            PathComp::ParentDir => seq![p[0]] + anchor_of(p.drop_first()),
            PathComp::RootDir => seq![p[0]],
            PathComp::CurDir => seq![p[0]],
            PathComp::Normal(_) => Seq::empty(),
        }
    }
}

/// Everything after the anchor. The first name component starts the query
/// and belongs to it.
pub open spec fn query_of(p: Seq<CompV>) -> Seq<CompV>
    decreases p.len(),
{
    if p.len() == 0 {
        Seq::empty()
    } else {
        match p[0] {
            PathComp::Prefix(_) => query_of(p.drop_first()),
            PathComp::ParentDir => query_of(p.drop_first()),
            PathComp::RootDir => p.drop_first(),
            PathComp::CurDir => p.drop_first(),
            PathComp::Normal(_) => p,
        }
    }
}

/// The anchor, with an empty anchor standing for the current directory.
pub open spec fn split_anchor_spec(p: Seq<CompV>) -> Seq<CompV> {
    if anchor_of(p).len() == 0 {
        seq![PathComp::CurDir]
    } else {
        anchor_of(p)
    }
}

/// Splits a path into the anchor that is used as-is and the query
/// components that are matched against transliterations.
pub fn get_first_split_pattern(path: &Vec<Comp>) -> (r: (Vec<Comp>, Vec<Comp>))
    ensures
        r.0.deep_view() == split_anchor_spec(path.deep_view()),
        r.1.deep_view() == query_of(path.deep_view()),
{
    let ghost pdv = path.deep_view();
    proof {
        crate::path::lemma_comps_deep_view(path);
        assert(pdv.skip(0) =~= pdv);
    }
    let mut basedir: Vec<Comp> = Vec::new();
    let ghost mut adv = Seq::<CompV>::empty();
    let mut pattern: Vec<Comp> = Vec::new();
    let ghost mut qdv = Seq::<CompV>::empty();
    let mut in_basedir = true;
    let mut i: usize = 0;
    while i < path.len()
        invariant
            i <= path@.len(),
            pdv == path.deep_view(),
            pdv.len() == path@.len(),
            forall|j: int| 0 <= j < path@.len() ==> pdv[j] == #[trigger] path@[j]@,
            basedir@.len() == adv.len(),
            forall|j: int| 0 <= j < adv.len() ==> #[trigger] basedir@[j]@ == adv[j],
            pattern@.len() == qdv.len(),
            forall|j: int| 0 <= j < qdv.len() ==> #[trigger] pattern@[j]@ == qdv[j],
            in_basedir ==> anchor_of(pdv) == adv + anchor_of(pdv.skip(i as int)) && query_of(pdv)
                == query_of(pdv.skip(i as int)) && qdv == Seq::<CompV>::empty(),
            !in_basedir ==> anchor_of(pdv) == adv && query_of(pdv) == qdv + pdv.skip(i as int),
        decreases path@.len() - i,
    {
        proof {
            assert(pdv.skip(i as int).drop_first() =~= pdv.skip(i + 1));
            assert(pdv.skip(i as int)[0] == pdv[i as int]);
        }
        if in_basedir {
            match &path[i] {
                PathComp::Prefix(_) => {
                    basedir.push(path[i].dup());
                    proof {
                        adv = adv.push(pdv[i as int]);
                        assert(anchor_of(pdv) =~= adv + anchor_of(pdv.skip(i + 1)));
                    }
                },
                PathComp::ParentDir => {
                    basedir.push(path[i].dup());
                    proof {
                        adv = adv.push(pdv[i as int]);
                        assert(anchor_of(pdv) =~= adv + anchor_of(pdv.skip(i + 1)));
                    }
                },
                PathComp::RootDir => {
                    basedir.push(path[i].dup());
                    in_basedir = false;
                    proof {
                        adv = adv.push(pdv[i as int]);
                        assert(anchor_of(pdv) =~= adv);
                        assert(query_of(pdv) =~= Seq::<CompV>::empty() + pdv.skip(i + 1));
                    }
                },
                PathComp::CurDir => {
                    basedir.push(path[i].dup());
                    in_basedir = false;
                    proof {
                        adv = adv.push(pdv[i as int]);
                        assert(anchor_of(pdv) =~= adv);
                        assert(query_of(pdv) =~= Seq::<CompV>::empty() + pdv.skip(i + 1));
                    }
                },
                PathComp::Normal(_) => {
                    pattern.push(path[i].dup());
                    in_basedir = false;
                    proof {
                        qdv = qdv.push(pdv[i as int]);
                        assert(anchor_of(pdv) =~= adv);
                        assert(query_of(pdv) == pdv.skip(i as int));
                        assert(query_of(pdv) =~= qdv + pdv.skip(i + 1));
                    }
                },
            }
        } else {
            pattern.push(path[i].dup());
            proof {
                qdv = qdv.push(pdv[i as int]);
                assert(query_of(pdv) =~= qdv + pdv.skip(i + 1));
            }
        }
        i = i + 1;
    }
    proof {
        assert(pdv.skip(pdv.len() as int) =~= Seq::<CompV>::empty());
        if in_basedir {
            assert(anchor_of(pdv) =~= adv);
            assert(query_of(pdv) =~= qdv);
        } else {
            assert(query_of(pdv) =~= qdv + Seq::<CompV>::empty());
            assert(query_of(pdv) =~= qdv);
        }
    }
    if basedir.len() == 0 {
        basedir.push(PathComp::CurDir);
        proof {
            adv = seq![PathComp::CurDir];
        }
    }
    proof {
        crate::path::lemma_comps_deep_view(&basedir);
        crate::path::lemma_comps_deep_view(&pattern);
        assert(basedir.deep_view() =~= adv);
        assert(pattern.deep_view() =~= qdv);
    }
    (basedir, pattern)
}

/// Whether one candidate satisfies the segment under the mode.
pub open spec fn seg_match(cand: Seq<char>, seg: Seq<char>, mode: MatchMode) -> bool {
    match mode {
        MatchMode::Exact => cand == seg,
        MatchMode::Prefix => seg.is_prefix_of(cand),
    }
}

/// Whether an entry matches the segment: it is treated as a directory, its
/// name is valid text, and some transliteration of the name satisfies the
/// segment.
pub open spec fn entry_matches(e: DirEntry, seg: Seq<char>, style: PinyinStyle, mode: MatchMode) -> bool {
    &&& !(e.kind is NotDir)
    &&& e.name is Some
    &&& exists|i: int|
        0 <= i < translits(e.name->Some_0@, style).len() && seg_match(
            #[trigger] translits(e.name->Some_0@, style)[i],
            seg,
            mode,
        )
}

/// The states that one listing adds to the queue: for each matching entry,
/// in listing order, the directory extended by the entry's name, with the
/// first segment of the pattern consumed.
pub open spec fn expand(
    dir: Seq<CompV>,
    pat: Seq<Seq<char>>,
    entries: Seq<DirEntry>,
    style: PinyinStyle,
    mode: MatchMode,
) -> Seq<(Seq<CompV>, Seq<Seq<char>>)>
    decreases entries.len(),
{
    if entries.len() == 0 {
        Seq::empty()
    } else {
        let rest = expand(dir, pat, entries.drop_last(), style, mode);
        let e = entries.last();
        if entry_matches(e, pat[0], style, mode) {
            rest.push((dir.push(PathComp::Normal(e.name->Some_0@)), pat.drop_first()))
        } else {
            rest
        }
    }
}

/// True exactly when some candidate satisfies the segment under the mode.
fn any_match(cands: &Vec<String>, seg: &String, mode: MatchMode) -> (r: bool)
    ensures
        r == exists|i: int|
            0 <= i < cands.deep_view().len() && seg_match(
                #[trigger] cands.deep_view()[i],
                seg@,
                mode,
            ),
{
    proof {
        crate::translit::lemma_strings_deep_view(cands);
    }
    let mut i: usize = 0;
    while i < cands.len()
        invariant
            i <= cands@.len(),
            cands.deep_view().len() == cands@.len(),
            forall|k: int|
                #![trigger cands.deep_view()[k]]
                0 <= k < cands@.len() ==> cands.deep_view()[k] == cands@[k]@,
            forall|k: int| 0 <= k < i ==> !seg_match(#[trigger] cands@[k]@, seg@, mode),
        decreases cands@.len() - i,
    {
        let hit = match mode {
            MatchMode::Exact => cands[i].eq(seg),
            MatchMode::Prefix => str_starts_with(cands[i].as_str(), seg.as_str()),
        };
        if hit {
            proof {
                assert(seg_match(cands.deep_view()[i as int], seg@, mode));
            }
            return true;
        }
        i = i + 1;
    }
    proof {
        if exists|k: int|
            0 <= k < cands.deep_view().len() && seg_match(cands.deep_view()[k], seg@, mode) {
            let k = choose|k: int|
                0 <= k < cands.deep_view().len() && seg_match(cands.deep_view()[k], seg@, mode);
            assert(!seg_match(cands@[k]@, seg@, mode));
        }
    }
    false
}

/// A copy of the strings of `v` after the first.
fn clone_tail(v: &Vec<String>) -> (r: Vec<String>)
    requires
        v@.len() > 0,
    ensures
        r.deep_view() == v.deep_view().drop_first(),
{
    proof {
        crate::translit::lemma_strings_deep_view(v);
    }
    let mut r: Vec<String> = Vec::new();
    let mut i: usize = 1;
    while i < v.len()
        invariant
            1 <= i <= v@.len(),
            r@.len() == i - 1,
            forall|k: int| 0 <= k < i - 1 ==> #[trigger] r@[k]@ == v@[k + 1]@,
        decreases v@.len() - i,
    {
        r.push(v[i].clone());
        i = i + 1;
    }
    proof {
        crate::translit::lemma_strings_deep_view(&r);
        crate::translit::lemma_strings_deep_view(v);
        assert(r.deep_view() =~= v.deep_view().drop_first());
    }
    r
}

/// One state of the search: the directory reached so far and the query
/// segments still to be matched.
pub struct SearchState {
    pub dir: Vec<Comp>,
    pub pattern: Vec<String>,
}

impl DeepView for SearchState {
    type V = (Seq<CompV>, Seq<Seq<char>>);

    open spec fn deep_view(&self) -> (Seq<CompV>, Seq<Seq<char>>) {
        (self.dir.deep_view(), self.pattern.deep_view())
    }
}

/// The deep view of a state vector is its elements' views, index by index.
pub proof fn lemma_states_deep_view(v: &Vec<SearchState>)
    ensures
        v.deep_view().len() == v@.len(),
        forall|j: int|
            #![trigger v.deep_view()[j]]
            #![trigger v@[j]]
            0 <= j < v@.len() ==> v.deep_view()[j] == v@[j].deep_view(),
{
}

/// The deep view of a result vector is its elements' views, index by index.
pub proof fn lemma_dirs_deep_view(v: &Vec<Vec<Comp>>)
    ensures
        v.deep_view().len() == v@.len(),
        forall|j: int|
            #![trigger v.deep_view()[j]]
            #![trigger v@[j]]
            0 <= j < v@.len() ==> v.deep_view()[j] == v@[j].deep_view(),
{
}

/// What the matcher asks of its caller next.
pub enum Step {
    /// The queue is drained: the results are complete.
    Done,
    /// The front state had no segments left; its directory was moved to
    /// the results.
    Matched,
    /// The front state needs the listing of this directory, to be handed
    /// back through `feed`.
    List(String),
}

/// The breadth-first matcher. The queue is worked strictly front to back;
/// the caller supplies each requested listing, so the matcher itself never
/// touches the filesystem.
pub struct Searcher {
    pub queue: Vec<SearchState>,
    pub results: Vec<Vec<Comp>>,
    pub style: PinyinStyle,
    pub mode: MatchMode,
}

impl Searcher {
    /// A fresh search: one queued state, no results.
    pub fn new(anchor: Vec<Comp>, query: Vec<String>, style: PinyinStyle, mode: MatchMode) -> (r:
        Searcher)
        ensures
            r.queue.deep_view() == seq![(anchor.deep_view(), query.deep_view())],
            r.results.deep_view() == Seq::<Seq<CompV>>::empty(),
            r.style == style,
            r.mode == mode,
    {
        let ghost advq = (anchor.deep_view(), query.deep_view());
        let mut queue: Vec<SearchState> = Vec::new();
        queue.push(SearchState { dir: anchor, pattern: query });
        let results: Vec<Vec<Comp>> = Vec::new();
        proof {
            lemma_states_deep_view(&queue);
            assert(queue.deep_view() =~= seq![advq]);
            lemma_dirs_deep_view(&results);
            assert(results.deep_view() =~= Seq::<Seq<CompV>>::empty());
        }
        Searcher { queue, results, style, mode }
    }

    /// Advances past the front of the queue: reports completion when the
    /// queue is empty, harvests a finished state into the results, or asks
    /// for the listing of the front state's directory.
    pub fn step(&mut self) -> (r: Step)
        ensures
            final (self).style == old(self).style,
            final (self).mode == old(self).mode,
            old(self).queue@.len() == 0 ==> r is Done && final (self).queue == old(self).queue
                && final (self).results == old(self).results,
            old(self).queue@.len() > 0 && old(self).queue.deep_view()[0].1.len() == 0 ==> r
                is Matched && final (self).queue.deep_view() == old(
                self,
            ).queue.deep_view().drop_first() && final (self).results.deep_view() == old(
                self,
            ).results.deep_view().push(old(self).queue.deep_view()[0].0),
            old(self).queue@.len() > 0 && old(self).queue.deep_view()[0].1.len() > 0 ==> r is List
                && r->List_0@ == crate::parse::render_spec(old(self).queue.deep_view()[0].0)
                && final (self).queue == old(self).queue && final (self).results == old(
                self,
            ).results,
    {
        proof {
            lemma_states_deep_view(&self.queue);
        }
        if self.queue.len() == 0 {
            return Step::Done;
        }
        if self.queue[0].pattern.len() == 0 {
            let ghost oldq = self.queue.deep_view();
            let ghost oldr = self.results.deep_view();
            let st = self.queue.remove(0);
            self.results.push(st.dir);
            proof {
                lemma_states_deep_view(&self.queue);
                assert(self.queue.deep_view() =~= oldq.drop_first());
                lemma_dirs_deep_view(&self.results);
                assert(self.results.deep_view() =~= oldr.push(oldq[0].0));
            }
            return Step::Matched;
        }
        let rendered = crate::parse::render_path(&self.queue[0].dir);
        Step::List(rendered)
    }

    /// Takes the listing that `step` asked for. No listing aborts the
    /// whole search, keeping the results gathered so far; a listing
    /// replaces the front state by one state per matching entry.
    pub fn feed(&mut self, listing: Option<Vec<DirEntry>>)
        requires
            old(self).queue@.len() > 0,
            old(self).queue.deep_view()[0].1.len() > 0,
        ensures
            final (self).style == old(self).style,
            final (self).mode == old(self).mode,
            final (self).results == old(self).results,
            listing is None ==> final (self).queue@.len() == 0,
            listing is Some ==> final (self).queue.deep_view() == old(
                self,
            ).queue.deep_view().drop_first() + expand(
                old(self).queue.deep_view()[0].0,
                old(self).queue.deep_view()[0].1,
                listing->Some_0@,
                old(self).style,
                old(self).mode,
            ),
    {
        proof {
            lemma_states_deep_view(&self.queue);
        }
        let ghost dirdv = self.queue.deep_view()[0].0;
        let ghost patdv = self.queue.deep_view()[0].1;
        let ghost basedv = self.queue.deep_view().drop_first();
        match listing {
            None => {
                self.queue = Vec::new();
                proof {
                    lemma_states_deep_view(&self.queue);
                }
            },
            Some(entries) => {
                let ghost edv = entries@;
                let st = self.queue.remove(0);
                proof {
                    lemma_states_deep_view(&self.queue);
                    assert(self.queue.deep_view() =~= basedv);
                    crate::translit::lemma_strings_deep_view(&st.pattern);
                    assert(st.pattern@[0]@ == patdv[0]);
                    assert(edv.take(0) =~= Seq::<DirEntry>::empty());
                }
                let ghost mut qdv = basedv;
                let seg = &st.pattern[0];
                let mut j: usize = 0;
                while j < entries.len()
                    invariant
                        j <= entries@.len(),
                        entries@ == edv,
                        st.dir.deep_view() == dirdv,
                        st.pattern.deep_view() == patdv,
                        st.pattern@.len() == patdv.len(),
                        patdv.len() > 0,
                        seg@ == patdv[0],
                        self.style == old(self).style,
                        self.mode == old(self).mode,
                        self.results == old(self).results,
                        self.queue@.len() == qdv.len(),
                        forall|t: int|
                            0 <= t < qdv.len() ==> #[trigger] self.queue@[t].deep_view() == qdv[t],
                        qdv == basedv + expand(dirdv, patdv, edv.take(j as int), self.style, self.mode),
                    decreases entries@.len() - j,
                {
                    proof {
                        assert(edv.take(j + 1).drop_last() =~= edv.take(j as int));
                        assert(edv.take(j + 1).last() == edv[j as int]);
                    }
                    let e = &entries[j];
                    let is_dir = match e.kind {
                        EntryKind::NotDir => false,
                        EntryKind::Dir => true,
                        EntryKind::Unknown => true,
                    };
                    if is_dir {
                        match &e.name {
                            None => {},
                            Some(n) => {
                                let cands = to_pinyin(n.as_str(), &self.style);
                                if any_match(&cands, seg, self.mode) {
                                    let mut nd = dup_comps(&st.dir);
                                    nd.push(PathComp::Normal(n.clone()));
                                    let np = clone_tail(&st.pattern);
                                    proof {
                                        crate::path::lemma_comps_deep_view(&nd);
                                        assert(nd.deep_view() =~= dirdv.push(
                                            PathComp::Normal(n@),
                                        ));
                                    }
                                    self.queue.push(SearchState { dir: nd, pattern: np });
                                    proof {
                                        qdv = qdv.push(
                                            (dirdv.push(PathComp::Normal(n@)), patdv.drop_first()),
                                        );
                                    }
                                }
                            },
                        }
                    }
                    j = j + 1;
                }
                proof {
                    assert(edv.take(edv.len() as int) =~= edv);
                    lemma_states_deep_view(&self.queue);
                    assert(self.queue.deep_view() =~= qdv);
                }
            },
        }
    }
}

/// How a resolution begins: an empty pattern falls back to the caller's
/// home-directory lookup; anything else starts a search.
pub enum Start {
    UseHome,
    Search(Searcher),
}

/// A copy of the query components' texts.
fn comps_to_strings(v: &Vec<Comp>) -> (r: Vec<String>)
    ensures
        r.deep_view() == v.deep_view().map_values(|c: CompV| comp_str(c)),
{
    proof {
        crate::path::lemma_comps_deep_view(v);
    }
    let mut r: Vec<String> = Vec::new();
    let mut i: usize = 0;
    while i < v.len()
        invariant
            i <= v@.len(),
            r@.len() == i,
            forall|k: int| 0 <= k < i ==> #[trigger] r@[k]@ == comp_str(v@[k]@),
        decreases v@.len() - i,
    {
        r.push(comp_string(&v[i]));
        i = i + 1;
    }
    proof {
        crate::translit::lemma_strings_deep_view(&r);
        crate::path::lemma_comps_deep_view(v);
        assert(r.deep_view() =~= v.deep_view().map_values(|c: CompV| comp_str(c)));
    }
    r
}

/// Begins resolving a raw pattern: the empty pattern asks the caller for
/// the home directory; otherwise the pattern is parsed, normalized and
/// split, and a search over the query segments starts from the anchor.
pub fn resolve_start(pattern: &str, style: PinyinStyle, mode: MatchMode) -> (r: Start)
    ensures
        pattern@.len() == 0 <==> r is UseHome,
        pattern@.len() > 0 ==> r is Search && (r->Search_0).queue.deep_view() == seq![
            (
                split_anchor_spec(normalize_spec(parse_spec(pattern@))),
                query_of(normalize_spec(parse_spec(pattern@))).map_values(|c: CompV| comp_str(c)),
            ),
        ] && (r->Search_0).results@.len() == 0 && (r->Search_0).style == style && (
        r->Search_0).mode == mode,
{
    if pattern.is_empty() {
        return Start::UseHome;
    }
    let comps = parse_path(pattern);
    let norm = normalize(&comps);
    let (anchor, query) = get_first_split_pattern(&norm);
    let segs = comps_to_strings(&query);
    let searcher = Searcher::new(anchor, segs, style, mode);
    proof {
        lemma_dirs_deep_view(&searcher.results);
    }
    Start::Search(searcher)
}

} // verus!
