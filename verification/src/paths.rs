use vstd::prelude::*;
use crate::text::{chars_of, string_from_chars};

verus! {

/// One component of a Unix path, as `std::path::Component` reports it.
pub enum PathComponent {
    RootDir,
    CurDir,
    ParentDir,
    Normal(String),
}

/// The view of a [`PathComponent`].
pub enum ComponentView {
    RootDir,
    CurDir,
    ParentDir,
    Normal(Seq<char>),
}

impl View for PathComponent {
    type V = ComponentView;

    open spec fn view(&self) -> ComponentView {
        match self {
            PathComponent::RootDir => ComponentView::RootDir,
            PathComponent::CurDir => ComponentView::CurDir,
            PathComponent::ParentDir => ComponentView::ParentDir,
            PathComponent::Normal(s) => ComponentView::Normal(s@),
        }
    }
}

/// The pieces of `p` between `/` separators, empty pieces included.
pub open spec fn segments(p: Seq<char>) -> Seq<Seq<char>>
    decreases p.len(),
{
    if p.len() == 0 {
        seq![Seq::empty()]
    } else {
        let s = segments(p.drop_last());
        if p.last() == '/' {
            s.push(Seq::empty())
        } else {
            s.update(s.len() - 1, s.last().push(p.last()))
        }
    }
}

/// The component that a piece after the first stands for (empty pieces and `.` vanish).
pub open spec fn later_component(seg: Seq<char>) -> Option<ComponentView> {
    if seg.len() == 0 || seg == seq!['.'] {
        None
    } else if seg == seq!['.', '.'] {
        Some(ComponentView::ParentDir)
    } else {
        Some(ComponentView::Normal(seg))
    }
}

/// The component that the first piece stands for: a leading `.` is kept.
pub open spec fn first_component(seg: Seq<char>) -> Option<ComponentView> {
    if seg == seq!['.'] {
        Some(ComponentView::CurDir)
    } else {
        later_component(seg)
    }
}

/// The components of the path `p` (`Path::components` on Unix).
pub open spec fn components(p: Seq<char>) -> Seq<ComponentView> {
    let segs = segments(p);
    if p.len() > 0 && p[0] == '/' {
        seq![ComponentView::RootDir] + segs.drop_first().filter_map(|s: Seq<char>| later_component(s))
    } else {
        let head: Seq<ComponentView> = match first_component(segs[0]) {
            Some(c) => seq![c],
            None => Seq::empty(),
        };
        head + segs.drop_first().filter_map(|s: Seq<char>| later_component(s))
    }
}

proof fn lemma_segments_len(p: Seq<char>)
    ensures
        segments(p).len() >= 1,
    decreases p.len(),
{
    if p.len() > 0 {
        lemma_segments_len(p.drop_last());
    }
}

/// Splits `p` at each `/`, keeping empty pieces.
pub fn split_segments(p: &Vec<char>) -> (res: Vec<Vec<char>>)
    ensures
        res@.len() == segments(p@).len(),
        forall|i: int| 0 <= i < res@.len() ==> #[trigger] res@[i]@ == segments(p@)[i],
{
    let mut res: Vec<Vec<char>> = Vec::new();
    res.push(Vec::new());
    let mut i: usize = 0;
    proof {
        assert(p@.take(0) =~= Seq::<char>::empty());
    }
    while i < p.len()
        invariant
            i <= p@.len(),
            res@.len() == segments(p@.take(i as int)).len(),
            res@.len() >= 1,
            forall|k: int| 0 <= k < res@.len() ==> #[trigger] res@[k]@ == segments(p@.take(i as int))[k],
        decreases p.len() - i,
    {
        proof {
            lemma_segments_len(p@.take(i as int));
            assert(p@.take(i + 1).drop_last() =~= p@.take(i as int));
        }
        let c = p[i];
        if c == '/' {
            res.push(Vec::new());
        } else {
            let last = res.len() - 1;
            let mut seg = res.pop().unwrap();
            seg.push(c);
            res.push(seg);
            proof {
                let s = segments(p@.take(i as int));
                assert forall|k: int| 0 <= k < res@.len() implies #[trigger] res@[k]@ == s.update(s.len() - 1, s.last().push(c))[k] by {}
            }
        }
        i += 1;
    }
    proof {
        assert(p@.take(p@.len() as int) =~= p@);
    }
    res
}

fn component_of(seg: &Vec<char>, first: bool) -> (res: Option<PathComponent>)
    ensures
        match res {
            Some(c) => Some(c@),
            None => None::<ComponentView>,
        } == (if first { first_component(seg@) } else { later_component(seg@) }),
{
    if seg.len() == 0 {
        None
    } else if seg.len() == 1 && seg[0] == '.' {
        assert(seg@ =~= seq!['.']);
        if first { Some(PathComponent::CurDir) } else { None }
    } else if seg.len() == 2 && seg[0] == '.' && seg[1] == '.' {
        assert(seg@ =~= seq!['.', '.']);
        Some(PathComponent::ParentDir)
    } else {
        assert(seg@ != seq!['.']);
        assert(seg@ != seq!['.', '.']);
        Some(PathComponent::Normal(string_from_chars(seg)))
    }
}

/// The components of the path `p`, as `Path::components` gives them on Unix.
pub fn path_components(p: &str) -> (res: Vec<PathComponent>)
    ensures
        res@.map_values(|c: PathComponent| c@) == components(p@),
{
    let chars = chars_of(p);
    let segs = split_segments(&chars);
    proof {
        lemma_segments_len(chars@);
    }
    let ghost sv = segments(chars@);
    let rooted = chars.len() > 0 && chars[0] == '/';
    let mut res: Vec<PathComponent> = Vec::new();
    if rooted {
        res.push(PathComponent::RootDir);
    } else {
        match component_of(&segs[0], true) {
            Some(c) => res.push(c),
            None => {},
        }
    }
    let ghost head = res@.map_values(|c: PathComponent| c@);
    let ghost rest = sv.drop_first();
    let ghost f = |s: Seq<char>| later_component(s);
    proof {
        assert(rest.take(0).filter_map(f) =~= Seq::<ComponentView>::empty());
        assert(res@.map_values(|c: PathComponent| c@) =~= head + rest.take(0).filter_map(f));
    }
    let mut i: usize = 1;
    while i < segs.len()
        invariant
            1 <= i <= segs@.len(),
            segs@.len() == sv.len(),
            rest == sv.drop_first(),
            f == (|s: Seq<char>| later_component(s)),
            forall|k: int| 0 <= k < segs@.len() ==> #[trigger] segs@[k]@ == sv[k],
            res@.map_values(|c: PathComponent| c@) == head + rest.take(i - 1).filter_map(f),
        decreases segs.len() - i,
    {
        proof {
            rest.lemma_filter_map_take_succ(f, i - 1);
            assert(rest[i - 1] == sv[i as int]);
            assert(f(rest[i - 1]) == later_component(segs@[i as int]@));
        }
        let ghost prev = res@.map_values(|c: PathComponent| c@);
        match component_of(&segs[i], false) {
            Some(c) => {
                res.push(c);
                assert(res@.map_values(|c: PathComponent| c@) =~= prev.push(c@));
                assert(res@.map_values(|c: PathComponent| c@) =~= head + rest.take(i as int).filter_map(f));
            },
            None => {
                assert(res@.map_values(|c: PathComponent| c@) =~= head + rest.take(i as int).filter_map(f));
            },
        }
        i += 1;
    }
    proof {
        assert(rest.take(rest.len() as int) =~= rest);
        assert(rooted <==> (chars@.len() > 0 && chars@[0] == '/'));
        if rooted {
            assert(head =~= seq![ComponentView::RootDir]);
        }
    }
    res
}

/// `a` comes before `b` in lexicographic order of characters (a proper prefix first).
pub open spec fn text_lt(a: Seq<char>, b: Seq<char>) -> bool
    decreases a.len(),
{
    if b.len() == 0 {
        false
    } else if a.len() == 0 {
        true
    } else if a[0] != b[0] {
        (a[0] as u32) < (b[0] as u32)
    } else {
        text_lt(a.drop_first(), b.drop_first())
    }
}

/// The rank of a component's kind in `std::path::Component`'s order.
pub open spec fn component_rank(c: ComponentView) -> int {
    match c {
        ComponentView::RootDir => 0,
        ComponentView::CurDir => 1,
        ComponentView::ParentDir => 2,
        ComponentView::Normal(_) => 3,
    }
}

/// `a` comes before `b` as components are ordered: by kind, then names by their text.
pub open spec fn component_lt(a: ComponentView, b: ComponentView) -> bool {
    match (a, b) {
        (ComponentView::Normal(x), ComponentView::Normal(y)) => text_lt(x, y),
        _ => component_rank(a) < component_rank(b),
    }
}

/// `a` comes before `b` in lexicographic order of components.
pub open spec fn components_lt(a: Seq<ComponentView>, b: Seq<ComponentView>) -> bool
    decreases a.len(),
{
    if b.len() == 0 {
        false
    } else if a.len() == 0 {
        true
    } else if a[0] != b[0] {
        component_lt(a[0], b[0])
    } else {
        components_lt(a.drop_first(), b.drop_first())
    }
}

/// `a` comes before `b` as paths are ordered (`Path`'s `Ord`): component by component.
pub open spec fn path_lt(a: Seq<char>, b: Seq<char>) -> bool {
    components_lt(components(a), components(b))
}

/// Each path of `ps` comes before every later one.
pub open spec fn ascending_paths(ps: Seq<Seq<char>>) -> bool {
    forall|i: int, j: int| 0 <= i < j < ps.len() ==> path_lt(#[trigger] ps[i], #[trigger] ps[j])
}

} // verus!
