//! The way from one path to another. What the components of a path are is the
//! platform's business: paths come in as lists of their components.
use vstd::prelude::*;
use crate::text::{
    chars_of, first_at, lemma_first_at, lemma_first_at_is, same_text, segments, text_of,
};

verus! {

/// A component of a path.
#[derive(Debug, Clone, PartialEq, Eq)]
pub enum Part {
    /// What stands before the root on some platforms, such as `C:`.
    Prefix(String),
    /// The root.
    Root,
    /// A name, `.` or `..`.
    Name(String),
}

/// What a [`Part`] stands for.
pub ghost enum PartView {
    Prefix(Seq<char>),
    Root,
    Name(Seq<char>),
}

impl View for Part {
    type V = PartView;

    open spec fn view(&self) -> PartView {
        match self {
            Part::Prefix(t) => PartView::Prefix(t@),
            Part::Root => PartView::Root,
            Part::Name(t) => PartView::Name(t@),
        }
    }
}

/// What a list of components stands for.
pub open spec fn part_views(v: Seq<Part>) -> Seq<PartView> {
    v.map_values(|p: Part| p@)
}

fn same_part(a: &Part, b: &Part) -> (r: bool)
    ensures
        r == (a@ == b@),
{
    match (a, b) {
        (Part::Prefix(x), Part::Prefix(y)) => same_text(x.as_str(), y.as_str()),
        (Part::Root, Part::Root) => true,
        (Part::Name(x), Part::Name(y)) => same_text(x.as_str(), y.as_str()),
        _ => false,
    }
}

/// How many components two paths share at their start.
pub open spec fn shared(a: Seq<PartView>, b: Seq<PartView>) -> nat
    decreases a.len(),
{
    if a.len() > 0 && b.len() > 0 && a[0] == b[0] {
        1 + shared(a.drop_first(), b.drop_first())
    } else {
        0
    }
}

/// The step to the directory above.
pub open spec fn up() -> PartView {
    PartView::Name(".."@)
}

/// The way from one path to another: up to what they share, then down.
pub open spec fn route(from: Seq<PartView>, to: Seq<PartView>) -> Seq<PartView> {
    let n = shared(from, to) as int;
    Seq::new((from.len() - n) as nat, |i: int| up()) + to.skip(n)
}

/// A path with one more component. A prefix starts anew, and so does the root
/// unless it follows a prefix; a name is set off by a slash where it does not
/// follow one, nor a prefix.
pub open spec fn extended(path: Seq<char>, bare: bool, part: PartView) -> Seq<char> {
    match part {
        PartView::Prefix(t) => t,
        PartView::Root => if bare {
            path.push('/')
        } else {
            seq!['/']
        },
        PartView::Name(t) => if path.len() == 0 || path.last() == '/' || bare {
            path + t
        } else {
            path.push('/') + t
        },
    }
}

/// Whether the last of several components is a prefix.
pub open spec fn ends_bare(parts: Seq<PartView>) -> bool {
    parts.len() > 0 && parts.last() is Prefix
}

/// Several components put together to one path.
pub open spec fn assembled(parts: Seq<PartView>) -> Seq<char>
    decreases parts.len(),
{
    if parts.len() == 0 {
        Seq::empty()
    } else {
        let front = parts.drop_last();
        extended(assembled(front), ends_bare(front), parts.last())
    }
}

/// A text with slashes in place of backslashes.
pub open spec fn slashed(s: Seq<char>) -> Seq<char> {
    s.map_values(
        |c: char|
            if c == '\\' {
                '/'
            } else {
                c
            },
    )
}

/// The way from one path to another, as text.
pub open spec fn relative(from: Seq<PartView>, to: Seq<PartView>) -> Seq<char> {
    let text = assembled(route(from, to));
    if text.len() == 0 {
        "."@
    } else {
        slashed(text)
    }
}

proof fn lemma_shared(a: Seq<PartView>, b: Seq<PartView>)
    ensures
        shared(a, b) <= a.len(),
        shared(a, b) <= b.len(),
        forall|i: int| 0 <= i < shared(a, b) ==> a[i] == b[i],
    decreases a.len(),
{
    if a.len() > 0 && b.len() > 0 && a[0] == b[0] {
        let c = a.drop_first();
        let d = b.drop_first();
        lemma_shared(c, d);
        assert forall|i: int| 0 <= i < shared(a, b) implies a[i] == b[i] by {
            if i > 0 {
                assert(a[i] == c[i - 1]);
                assert(b[i] == d[i - 1]);
            }
        }
    }
}

fn shared_count(a: &[Part], b: &[Part]) -> (n: usize)
    ensures
        n == shared(part_views(a@), part_views(b@)),
{
    let ghost x = part_views(a@);
    let ghost y = part_views(b@);
    let mut i: usize = 0;
    proof {
        assert(x.skip(0) =~= x);
        assert(y.skip(0) =~= y);
    }
    while i < a.len() && i < b.len() && same_part(&a[i], &b[i])
        invariant
            i <= a@.len(),
            i <= b@.len(),
            x == part_views(a@),
            y == part_views(b@),
            shared(x, y) == i + shared(x.skip(i as int), y.skip(i as int)),
        decreases a@.len() - i,
    {
        proof {
            assert(x.skip(i as int).drop_first() =~= x.skip(i + 1));
            assert(y.skip(i as int).drop_first() =~= y.skip(i + 1));
            assert(x.skip(i as int)[0] == a@[i as int]@);
            assert(y.skip(i as int)[0] == b@[i as int]@);
        }
        i = i + 1;
    }
    proof {
        if i < a@.len() && i < b@.len() {
            assert(x.skip(i as int)[0] == a@[i as int]@);
            assert(y.skip(i as int)[0] == b@[i as int]@);
        }
    }
    i
}

fn push_name(out: &mut Vec<char>, bare: bool, name: &str)
    ensures
        final(out)@ == extended(old(out)@, bare, PartView::Name(name@)),
{
    if out.len() > 0 && out[out.len() - 1] != '/' && !bare {
        out.push('/');
    }
    let mut more: Vec<char> = chars_of(name);
    out.append(&mut more);
    assert(out@ =~= extended(old(out)@, bare, PartView::Name(name@)));
}

fn push_part(out: &mut Vec<char>, bare: bool, part: &Part)
    ensures
        final(out)@ == extended(old(out)@, bare, part@),
{
    match part {
        Part::Prefix(t) => {
            *out = chars_of(t.as_str());
        },
        Part::Root => {
            if !bare {
                out.clear();
            }
            out.push('/');
            assert(out@ =~= extended(old(out)@, bare, part@));
        },
        Part::Name(t) => {
            push_name(out, bare, t.as_str());
        },
    }
}

/// The way from `from` to `to`, both given by the components of absolute paths,
/// as a relative path with slashes.
pub fn rel_path(from: &[Part], to: &[Part]) -> (r: Option<String>)
    ensures
        r matches Some(s) && s@ == relative(part_views(from@), part_views(to@)),
{
    let n: usize = shared_count(from, to);
    let ghost way = route(part_views(from@), part_views(to@));
    let mut out: Vec<char> = Vec::new();
    proof {
        lemma_shared(part_views(from@), part_views(to@));
        assert(way.take(0) =~= Seq::<PartView>::empty());
    }
    let mut i: usize = n;
    while i < from.len()
        invariant
            n <= i <= from@.len(),
            n == shared(part_views(from@), part_views(to@)),
            n <= to@.len(),
            way == route(part_views(from@), part_views(to@)),
            out@ == assembled(way.take(i - n)),
        decreases from@.len() - i,
    {
        proof {
            let more = way.take(i - n + 1);
            assert(more.drop_last() =~= way.take(i - n));
            assert(more.last() == up());
            if i > n {
                assert(way.take(i - n).last() == up());
            }
        }
        push_name(&mut out, false, "..");
        i = i + 1;
    }
    let ghost ups = from@.len() - n;
    let mut bare: bool = false;
    proof {
        if ups > 0 {
            assert(way.take(ups).last() == up());
        }
    }
    let mut j: usize = n;
    while j < to.len()
        invariant
            n <= j <= to@.len(),
            n == shared(part_views(from@), part_views(to@)),
            n <= from@.len(),
            ups == from@.len() - n,
            way == route(part_views(from@), part_views(to@)),
            out@ == assembled(way.take(ups + j - n)),
            bare == ends_bare(way.take(ups + j - n)),
        decreases to@.len() - j,
    {
        proof {
            let more = way.take(ups + j - n + 1);
            assert(more.drop_last() =~= way.take(ups + j - n));
            assert(more.last() == part_views(to@)[j as int]);
            assert(more.last() == to@[j as int]@);
        }
        push_part(&mut out, bare, &to[j]);
        bare = matches!(to[j], Part::Prefix(_));
        j = j + 1;
    }
    proof {
        assert(way.take(ups + j - n) =~= way);
    }
    if out.len() == 0 {
        return Some(".".to_owned());
    }
    let ghost plain = out@;
    let mut k: usize = 0;
    while k < out.len()
        invariant
            k <= out@.len(),
            out@.len() == plain.len(),
            forall|m: int| 0 <= m < k ==> out@[m] == slashed(plain)[m],
            forall|m: int| k <= m < out@.len() ==> out@[m] == plain[m],
        decreases out@.len() - k,
    {
        if out[k] == '\\' {
            out.set(k, '/');
        }
        k = k + 1;
    }
    assert(out@ =~= slashed(plain));
    Some(text_of(out.as_slice()))
}

// --- Where the way leads -------------------------------------------------------------

/// Where steps lead from a place: `..` leads up, `.` stays, a name leads down.
pub open spec fn followed(at: Seq<PartView>, steps: Seq<PartView>) -> Seq<PartView>
    decreases steps.len(),
{
    if steps.len() == 0 {
        at
    } else {
        let before = followed(at, steps.drop_last());
        if steps.last() == PartView::Name("."@) {
            before
        } else if steps.last() == up() {
            if before.len() == 0 {
                before
            } else {
                before.drop_last()
            }
        } else {
            before.push(steps.last())
        }
    }
}

/// The steps of a relative path that is written with slashes.
pub open spec fn steps_in(text: Seq<char>) -> Seq<PartView> {
    segments(text, '/').map_values(|t: Seq<char>| PartView::Name(t))
}

/// Whether a text is one name on every platform: not empty, and without a slash
/// or a backslash.
pub open spec fn plain_part(part: Seq<char>) -> bool {
    &&& part.len() > 0
    &&& forall|i: int| 0 <= i < part.len() ==> #[trigger] part[i] != '/' && part[i] != '\\'
}

/// Whether a component is a name that leads down.
pub open spec fn leads_down(part: PartView) -> bool {
    part matches PartView::Name(t) && plain_part(t) && t != "."@ && t != ".."@
}

/// A name behind a slash is the last part.
proof fn lemma_segments_append(a: Seq<char>, b: Seq<char>)
    requires
        plain_part(b),
    ensures
        segments(a.push('/') + b, '/') == segments(a, '/').push(b),
    decreases a.len(),
{
    let s = a.push('/') + b;
    lemma_first_at(a, '/');
    lemma_first_at(b, '/');
    assert(first_at(b, '/') is None);
    assert(segments(b, '/') == seq![b]);
    match first_at(a, '/') {
        None => {
            lemma_first_at_is(s, '/', a.len() as int);
            assert(s.skip(a.len() as int + 1) =~= b);
            assert(s.take(a.len() as int) =~= a);
            if a.len() == 0 {
                assert(s.skip(1) =~= b);
                assert(segments(s, '/') =~= segments(a, '/').push(b));
            } else {
                assert(segments(s, '/') =~= segments(a, '/').push(b));
            }
        },
        Some(k) => {
            lemma_first_at_is(s, '/', k);
            let rest = a.skip(k + 1);
            lemma_segments_append(rest, b);
            assert(s.skip(k + 1) =~= rest.push('/') + b);
            if k == 0 {
                assert(s.skip(1) =~= rest.push('/') + b);
                assert(a.skip(1) =~= rest);
            } else {
                assert(s.take(k) =~= a.take(k));
                assert(segments(s, '/') =~= segments(a, '/').push(b));
            }
        },
    }
}

spec fn names(texts: Seq<Seq<char>>) -> Seq<PartView> {
    texts.map_values(|t: Seq<char>| PartView::Name(t))
}

/// Names put together, and taken apart again.
proof fn lemma_assembled(texts: Seq<Seq<char>>)
    requires
        forall|i: int| 0 <= i < texts.len() ==> plain_part(#[trigger] texts[i]),
    ensures
        segments(assembled(names(texts)), '/') == texts,
        slashed(assembled(names(texts))) == assembled(names(texts)),
        texts.len() > 0 ==> assembled(names(texts)).len() > 0 && assembled(names(texts)).last()
            != '/',
    decreases texts.len(),
{
    let parts = names(texts);
    let all = assembled(parts);
    if texts.len() == 0 {
        assert(segments(all, '/') =~= texts);
        assert(slashed(all) =~= all);
    } else {
        let front = texts.drop_last();
        let part = texts.last();
        assert(plain_part(texts[texts.len() - 1]));
        assert forall|i: int| 0 <= i < front.len() implies plain_part(#[trigger] front[i]) by {
            assert(front[i] == texts[i]);
        }
        lemma_assembled(front);
        assert(parts.drop_last() =~= names(front));
        let text = assembled(names(front));
        if front.len() > 0 {
            assert(names(front).last() == PartView::Name(front.last()));
        }
        assert(!ends_bare(names(front)));
        assert forall|i: int| 0 <= i < text.len() implies #[trigger] text[i] != '\\' by {
            assert(slashed(text)[i] == text[i]);
        }
        if front.len() == 0 {
            assert(all =~= part);
            lemma_first_at(part, '/');
            assert(segments(part, '/') =~= texts);
        } else {
            assert(all == text.push('/') + part);
            lemma_segments_append(text, part);
            assert(front.push(part) =~= texts);
        }
        assert(all.last() == part[part.len() - 1]);
        assert(slashed(all) =~= all);
    }
}

proof fn lemma_followed_up(at: Seq<PartView>, n: nat)
    requires
        n <= at.len(),
    ensures
        followed(at, Seq::new(n, |i: int| up())) == at.take(at.len() - n),
    decreases n,
{
    let steps = Seq::new(n, |i: int| up());
    reveal_strlit(".");
    reveal_strlit("..");
    assert("."@.len() == 1 && ".."@.len() == 2);
    if n > 0 {
        assert(steps.drop_last() =~= Seq::new((n - 1) as nat, |i: int| up()));
        lemma_followed_up(at, (n - 1) as nat);
        assert(at.take(at.len() - n + 1).drop_last() =~= at.take(at.len() - n));
    } else {
        assert(at.take(at.len() as int) =~= at);
    }
}

proof fn lemma_followed_down(at: Seq<PartView>, ups: Seq<PartView>, down: Seq<PartView>)
    requires
        forall|i: int| 0 <= i < down.len() ==> leads_down(#[trigger] down[i]),
    ensures
        followed(at, ups + down) == followed(at, ups) + down,
    decreases down.len(),
{
    let steps = ups + down;
    if down.len() > 0 {
        let front = down.drop_last();
        assert(steps.drop_last() =~= ups + front);
        assert forall|i: int| 0 <= i < front.len() implies leads_down(#[trigger] front[i]) by {
            assert(front[i] == down[i]);
        }
        lemma_followed_down(at, ups, front);
        assert(leads_down(down[down.len() - 1]));
        assert(followed(at, ups) + down =~= (followed(at, ups) + front).push(down.last()));
    } else {
        assert(steps =~= ups);
        assert(followed(at, ups) + down =~= followed(at, ups));
    }
}

/// The relative path from one path to another leads from the first to the
/// second, where from the point at which they part the second holds names alone:
/// behind a `..` no name is known, a `.` leads nowhere, and a prefix or a root
/// starts anew.
pub proof fn law_relative_path_leads_there(from: Seq<PartView>, to: Seq<PartView>)
    requires
        forall|i: int| shared(from, to) <= i < to.len() ==> leads_down(#[trigger] to[i]),
    ensures
        followed(from, steps_in(relative(from, to))) == to,
{
    reveal_strlit(".");
    reveal_strlit("..");
    assert("."@.len() == 1 && ".."@.len() == 2);
    lemma_shared(from, to);
    let n = shared(from, to);
    let ups = Seq::new((from.len() - n) as nat, |i: int| up());
    let down = to.skip(n as int);
    let way = route(from, to);
    assert(way =~= ups + down);
    assert forall|i: int| 0 <= i < down.len() implies leads_down(#[trigger] down[i]) by {
        assert(down[i] == to[i + n]);
    }
    lemma_followed_up(from, (from.len() - n) as nat);
    lemma_followed_down(from, ups, down);
    assert(from.take(n as int) + down =~= to);
    assert(followed(from, way) == to);
    let texts = way.map_values(|p: PartView| p->Name_0);
    assert forall|i: int| 0 <= i < way.len() implies plain_part(#[trigger] texts[i])
        && way[i] == PartView::Name(texts[i]) by {
        if i >= ups.len() {
            assert(way[i] == down[i - ups.len()]);
        } else {
            assert(way[i] == up());
            assert(".."@[0] == '.' && ".."@[1] == '.');
        }
    }
    assert(names(texts) =~= way);
    lemma_assembled(texts);
    let rel = relative(from, to);
    if way.len() == 0 {
        assert(rel == "."@);
        lemma_first_at(rel, '/');
        assert(segments(rel, '/') == seq![rel]);
        let stay = steps_in(rel);
        assert(stay =~= seq![PartView::Name("."@)]);
        assert(stay.drop_last() =~= Seq::<PartView>::empty());
        assert(followed(from, stay) == followed(from, Seq::<PartView>::empty()));
        assert(way =~= Seq::<PartView>::empty());
    } else {
        assert(rel == assembled(way));
        assert(steps_in(rel) =~= way);
    }
}

} // verus!
