use vstd::prelude::*;
use vstd::string::{StrSliceExecFns, StringExecFns};

use crate::ast::Item;
use crate::visitor::{
    GenericVisitor, LifetimeEntry, LifetimeInfo, TypeEntry, lifetime_models, type_models,
    walk_items,
};

verus! {

/// The characters the renderer strips from either end of a rendered bound.
pub open spec fn is_space_char(c: char) -> bool {
    c == ' ' || c == '\t' || c == '\n' || c == '\r'
}

/// What is left of a text once its leading whitespace goes.
pub open spec fn trim_front(s: Seq<char>) -> Seq<char>
    decreases s.len(),
{
    if s.len() > 0 && is_space_char(s[0]) {
        trim_front(s.drop_first())
    } else {
        s
    }
}

/// What is left of a text once its trailing whitespace goes.
pub open spec fn trim_back(s: Seq<char>) -> Seq<char>
    decreases s.len(),
{
    if s.len() > 0 && is_space_char(s.last()) {
        trim_back(s.drop_last())
    } else {
        s
    }
}

/// A text without its leading and trailing whitespace.
pub open spec fn trim_spec(s: Seq<char>) -> Seq<char> {
    trim_back(trim_front(s))
}

proof fn lemma_trim_front_is_subrange(s: Seq<char>, a: int)
    requires
        0 <= a <= s.len(),
        forall|j: int| 0 <= j < a ==> is_space_char(s[j]),
        a == s.len() || !is_space_char(s[a]),
    ensures
        trim_front(s) == s.subrange(a, s.len() as int),
    decreases a,
{
    if a == 0 {
        assert(trim_front(s) == s);
        assert(s.subrange(0, s.len() as int) =~= s);
    } else {
        assert(is_space_char(s[0]));
        let rest = s.drop_first();
        assert(forall|j: int| 0 <= j < a - 1 ==> is_space_char(rest[j]));
        lemma_trim_front_is_subrange(rest, a - 1);
        assert(rest.subrange(a - 1, rest.len() as int) =~= s.subrange(a, s.len() as int));
    }
}

proof fn lemma_trim_back_is_prefix(s: Seq<char>, b: int)
    requires
        0 <= b <= s.len(),
        forall|j: int| b <= j < s.len() ==> is_space_char(s[j]),
        b == 0 || !is_space_char(s[b - 1]),
    ensures
        trim_back(s) == s.subrange(0, b),
    decreases s.len(),
{
    if b == s.len() {
        if s.len() > 0 {
            assert(!is_space_char(s.last()));
        }
        assert(trim_back(s) == s);
        assert(s.subrange(0, b) =~= s);
    } else {
        assert(is_space_char(s.last()));
        let rest = s.drop_last();
        assert(forall|j: int| b <= j < rest.len() ==> is_space_char(rest[j]));
        lemma_trim_back_is_prefix(rest, b);
        assert(rest.subrange(0, b) =~= s.subrange(0, b));
    }
}

/// Whether the renderer treats a character as whitespace.
fn is_space(c: char) -> (r: bool)
    ensures
        r == is_space_char(c),
{
    c == ' ' || c == '\t' || c == '\n' || c == '\r'
}

/// The text without its leading and trailing whitespace, as a borrowed piece
/// of the input.
pub fn trimmed(s: &str) -> (r: &str)
    ensures
        r@ == trim_spec(s@),
{
    let n = s.unicode_len();
    let mut a: usize = 0;
    while a < n
        invariant
            a <= n,
            n == s@.len(),
            forall|j: int| 0 <= j < a ==> is_space_char(s@[j]),
        ensures
            a <= n,
            n == s@.len(),
            forall|j: int| 0 <= j < a ==> is_space_char(s@[j]),
            a < n ==> !is_space_char(s@[a as int]),
        decreases n - a,
    {
        if !is_space(s.get_char(a)) {
            break ;
        }
        a += 1;
    }
    let mut b: usize = n;
    while b > a
        invariant
            a <= b <= n,
            n == s@.len(),
            forall|j: int| b <= j < n ==> is_space_char(s@[j]),
        ensures
            a <= b <= n,
            n == s@.len(),
            forall|j: int| b <= j < n ==> is_space_char(s@[j]),
            b > a ==> !is_space_char(s@[b - 1]),
        decreases b,
    {
        if !is_space(s.get_char(b - 1)) {
            break ;
        }
        b -= 1;
    }
    proof {
        lemma_trim_front_is_subrange(s@, a as int);
        let t = s@.subrange(a as int, n as int);
        assert(forall|j: int| b - a <= j < t.len() ==> is_space_char(t[j]));
        lemma_trim_back_is_prefix(t, b - a);
        assert(t.subrange(0, b - a) =~= s@.subrange(a as int, b as int));
    }
    s.substring_char(a, b)
}

/// One group of the lifetimes section: a lifetime name and the contexts it
/// was recorded under, in collection order.
pub struct LifetimeGroup {
    pub name: String,
    pub contexts: Vec<String>,
}

/// Mathematical image of one lifetime group.
#[verifier::ext_equal]
pub ghost struct GroupModel {
    pub name: Seq<char>,
    pub contexts: Seq<Seq<char>>,
}

/// The images of a sequence of texts.
pub open spec fn texts_model(s: Seq<String>) -> Seq<Seq<char>> {
    s.map_values(|x: String| x@)
}

impl View for LifetimeGroup {
    type V = GroupModel;

    open spec fn view(&self) -> GroupModel {
        GroupModel { name: self.name@, contexts: texts_model(self.contexts@) }
    }
}

/// The images of a sequence of groups.
pub open spec fn group_models(s: Seq<LifetimeGroup>) -> Seq<GroupModel> {
    s.map_values(|g: LifetimeGroup| g@)
}

/// The distinct lifetime names of a sequence of entries, each at its first
/// appearance, in that order.
pub open spec fn distinct_names(entries: Seq<LifetimeEntry>) -> Seq<Seq<char>>
    decreases entries.len(),
{
    if entries.len() == 0 {
        Seq::empty()
    } else {
        let rest = distinct_names(entries.drop_last());
        if rest.contains(entries.last().name) {
            rest
        } else {
            rest.push(entries.last().name)
        }
    }
}

/// The contexts recorded for one lifetime name, in collection order.
pub open spec fn contexts_of(entries: Seq<LifetimeEntry>, name: Seq<char>) -> Seq<Seq<char>> {
    entries.filter(|e: LifetimeEntry| e.name == name).map_values(|e: LifetimeEntry| e.context)
}

/// The lifetime groups of a sequence of entries: one group per distinct
/// name, in order of first appearance, holding that name's contexts in
/// collection order. Callers should not lean on the order of the groups
/// themselves; only the spread of contexts over them is promised.
pub open spec fn lifetime_groups(entries: Seq<LifetimeEntry>) -> Seq<GroupModel> {
    distinct_names(entries).map_values(
        |n: Seq<char>| GroupModel { name: n, contexts: contexts_of(entries, n) },
    )
}

proof fn lemma_contexts_of_push(s: Seq<LifetimeEntry>, e: LifetimeEntry, nm: Seq<char>)
    ensures
        e.name == nm ==> contexts_of(s.push(e), nm) == contexts_of(s, nm).push(e.context),
        e.name != nm ==> contexts_of(s.push(e), nm) == contexts_of(s, nm),
{
    let pred = |x: LifetimeEntry| x.name == nm;
    s.lemma_filter_push(e, pred);
    if pred(e) {
        assert(s.filter(pred).push(e).map_values(|x: LifetimeEntry| x.context) =~= s.filter(
            pred,
        ).map_values(|x: LifetimeEntry| x.context).push(e.context));
    }
}

/// Whether a name already stands in the list of names seen so far.
fn contains_name(names: &Vec<String>, name: &String) -> (r: bool)
    ensures
        r == texts_model(names@).contains(name@),
{
    let n = names.len();
    let mut i: usize = 0;
    while i < n
        invariant
            i <= n,
            n == names@.len(),
            forall|j: int| 0 <= j < i ==> names@[j]@ != name@,
        ensures
            i <= n,
            n == names@.len(),
            forall|j: int| 0 <= j < i ==> names@[j]@ != name@,
            i < n ==> names@[i as int]@ == name@,
        decreases n - i,
    {
        if names[i] == *name {
            break ;
        }
        i += 1;
    }
    proof {
        if i < n {
            assert(texts_model(names@)[i as int] == name@);
            assert(texts_model(names@).contains(name@));
        } else {
            assert(forall|j: int|
                0 <= j < texts_model(names@).len() ==> texts_model(names@)[j] != name@);
        }
    }
    i < n
}

/// Groups the recorded lifetimes by name: one group per distinct name, in
/// order of first appearance, each holding the contexts recorded for that
/// name in collection order.
pub fn group_lifetimes(entries: &Vec<LifetimeInfo>) -> (groups: Vec<LifetimeGroup>)
    ensures
        group_models(groups@) == lifetime_groups(lifetime_models(entries@)),
{
    let ghost m = lifetime_models(entries@);
    let n = entries.len();
    let mut names: Vec<String> = Vec::new();
    let mut i: usize = 0;
    proof {
        assert(m.take(0) =~= Seq::<LifetimeEntry>::empty());
        assert(texts_model(names@) =~= distinct_names(m.take(0)));
    }
    while i < n
        invariant
            i <= n,
            n == entries@.len(),
            m == lifetime_models(entries@),
            texts_model(names@) =~= distinct_names(m.take(i as int)),
        decreases n - i,
    {
        proof {
            assert(m.take(i + 1).drop_last() =~= m.take(i as int));
            assert(m.take(i + 1).last() == m[i as int]);
            assert(m[i as int] == entries@[i as int]@);
        }
        let seen = contains_name(&names, &entries[i].name);
        if !seen {
            names.push(entries[i].name.clone());
            proof {
                assert(texts_model(names@) =~= distinct_names(m.take(i as int)).push(
                    m[i as int].name));
            }
        }
        i += 1;
    }
    proof {
        assert(m.take(n as int) =~= m);
    }
    let mut groups: Vec<LifetimeGroup> = Vec::new();
    let k_max = names.len();
    let mut k: usize = 0;
    proof {
        assert(group_models(groups@) =~= lifetime_groups(m).take(0));
    }
    while k < k_max
        invariant
            k <= k_max,
            k_max == names@.len(),
            n == entries@.len(),
            m == lifetime_models(entries@),
            texts_model(names@) == distinct_names(m),
            group_models(groups@) =~= lifetime_groups(m).take(k as int),
        decreases k_max - k,
    {
        let mut ctxs: Vec<String> = Vec::new();
        let mut j: usize = 0;
        proof {
            assert(m.take(0) =~= Seq::<LifetimeEntry>::empty());
            let pred = |x: LifetimeEntry| x.name == names@[k as int]@;
            assert(m.take(0).filter(pred) =~= Seq::<LifetimeEntry>::empty());
            assert(texts_model(ctxs@) =~= contexts_of(m.take(0), names@[k as int]@));
        }
        while j < n
            invariant
                j <= n,
                k < k_max,
                k_max == names@.len(),
                n == entries@.len(),
                m == lifetime_models(entries@),
                texts_model(ctxs@) =~= contexts_of(m.take(j as int), names@[k as int]@),
            decreases n - j,
        {
            proof {
                assert(m.take(j + 1).drop_last() =~= m.take(j as int));
                assert(m.take(j + 1) =~= m.take(j as int).push(m[j as int]));
                assert(m[j as int] == entries@[j as int]@);
                lemma_contexts_of_push(m.take(j as int), m[j as int], names@[k as int]@);
            }
            if entries[j].name == names[k] {
                ctxs.push(entries[j].context.clone());
                proof {
                    assert(texts_model(ctxs@) =~= contexts_of(m.take(j as int),
                        names@[k as int]@).push(m[j as int].context));
                }
            }
            j += 1;
        }
        proof {
            assert(m.take(n as int) =~= m);
        }
        let group = LifetimeGroup { name: names[k].clone(), contexts: ctxs };
        groups.push(group);
        proof {
            assert(lifetime_groups(m).take(k + 1).drop_last() =~= lifetime_groups(m).take(
                k as int));
            assert(lifetime_groups(m).take(k + 1).last() == lifetime_groups(m)[k as int]);
            assert(lifetime_groups(m)[k as int] == GroupModel {
                name: distinct_names(m)[k as int],
                contexts: contexts_of(m, distinct_names(m)[k as int]),
            });
            assert(distinct_names(m)[k as int] == names@[k as int]@);
            assert(group_models(groups@) =~= lifetime_groups(m).take(k as int).push(group@));
            assert(group@ =~~= lifetime_groups(m)[k as int]);
            assert(group_models(groups@) =~= lifetime_groups(m).take(k + 1));
        }
        k += 1;
    }
    proof {
        assert(lifetime_groups(m).take(names@.len() as int) =~= lifetime_groups(m));
        assert(group_models(groups@) =~= lifetime_groups(lifetime_models(entries@)));
    }
    groups
}

/// The rendered lines of one type parameter's bounds, each trimmed, in
/// declaration order.
pub open spec fn bound_lines(bounds: Seq<Seq<char>>) -> Seq<char>
    decreases bounds.len(),
{
    if bounds.len() == 0 {
        Seq::empty()
    } else {
        bound_lines(bounds.drop_last()) + "    - "@ + trim_spec(bounds.last()) + "
"@
    }
}

/// The rendered block of one recorded type parameter: its context, its name,
/// and its bound list where it has one.
pub open spec fn type_block(t: TypeEntry) -> Seq<char> {
    "
In "@ + t.context + ":
"@ + "  Type: "@ + t.name + "
"@ + if t.bounds.len() == 0 {
        Seq::<char>::empty()
    } else {
        "  Bounds:
"@ + bound_lines(t.bounds)
    }
}

/// The body of the "Generic Types" section: one block per recorded type
/// parameter, in collection order.
pub open spec fn types_section(ts: Seq<TypeEntry>) -> Seq<char>
    decreases ts.len(),
{
    if ts.len() == 0 {
        Seq::empty()
    } else {
        types_section(ts.drop_last()) + type_block(ts.last())
    }
}

/// The rendered lines of one lifetime group's contexts, in collection order.
pub open spec fn context_lines(ctxs: Seq<Seq<char>>) -> Seq<char>
    decreases ctxs.len(),
{
    if ctxs.len() == 0 {
        Seq::empty()
    } else {
        context_lines(ctxs.drop_last()) + "    - "@ + ctxs.last() + "
"@
    }
}

/// The rendered block of one lifetime group: the name and the contexts it
/// appears in.
pub open spec fn group_block(g: GroupModel) -> Seq<char> {
    "
Lifetime '"@ + g.name + "
"@ + "  Used in:
"@ + context_lines(g.contexts)
}

/// The body of the "Lifetimes" section: one block per group.
pub open spec fn lifetimes_section(gs: Seq<GroupModel>) -> Seq<char>
    decreases gs.len(),
{
    if gs.len() == 0 {
        Seq::empty()
    } else {
        lifetimes_section(gs.drop_last()) + group_block(gs.last())
    }
}

/// The whole report: the "Generic Types" section over the recorded type
/// parameters, then the "Lifetimes" section over the grouped lifetimes.
pub open spec fn report_text(types: Seq<TypeEntry>, lifetimes: Seq<LifetimeEntry>) -> Seq<char> {
    "
=== Generic Types ===
"@ + types_section(types) + "
=== Lifetimes ===
"@
        + lifetimes_section(lifetime_groups(lifetimes))
}

impl GenericVisitor {
    /// Renders the recorded entries as the two-section report: every type
    /// parameter under its context with its trimmed bounds, then the
    /// lifetimes grouped by name.
    pub fn format_output(&self) -> (r: String)
        ensures
            r@ == report_text(self@.types, self@.lifetimes),
    {
        let ghost ts = type_models(self.types@);
        let mut out = String::new();
        out.append("
=== Generic Types ===
");
        let nt = self.types.len();
        let mut i: usize = 0;
        proof {
            assert(ts.take(0) =~= Seq::<TypeEntry>::empty());
            assert(out@ =~= "
=== Generic Types ===
"@ + types_section(ts.take(0)));
        }
        while i < nt
            invariant
                i <= nt,
                nt == self.types@.len(),
                ts == type_models(self.types@),
                out@ =~= "
=== Generic Types ===
"@ + types_section(ts.take(i as int)),
            decreases nt - i,
        {
            let ghost before = out@;
            let t = &self.types[i];
            proof {
                assert(t@ == ts[i as int]);
            }
            out.append("
In ");
            out.append(t.context.as_str());
            out.append(":
");
            out.append("  Type: ");
            out.append(t.name.as_str());
            out.append("
");
            let nb = t.bounds.len();
            if nb > 0 {
                out.append("  Bounds:
");
                let ghost bs = t@.bounds;
                let ghost mid = before + "
In "@ + t@.context + ":
"@ + "  Type: "@ + t@.name
                    + "
"@ + "  Bounds:
"@;
                let mut j: usize = 0;
                proof {
                    assert(bs.take(0) =~= Seq::<Seq<char>>::empty());
                    assert(out@ =~= mid + bound_lines(bs.take(0)));
                }
                while j < nb
                    invariant
                        j <= nb,
                        nb == t.bounds@.len(),
                        bs == t@.bounds,
                        out@ =~= mid + bound_lines(bs.take(j as int)),
                    decreases nb - j,
                {
                    proof {
                        assert(bs.take(j + 1).drop_last() =~= bs.take(j as int));
                        assert(bs.take(j + 1).last() == bs[j as int]);
                        assert(bs[j as int] == t.bounds@[j as int]@);
                    }
                    out.append("    - ");
                    let tb = trimmed(t.bounds[j].as_str());
                    out.append(tb);
                    out.append("
");
                    proof {
                        assert(out@ =~= mid + bound_lines(bs.take(j + 1)));
                    }
                    j += 1;
                }
                proof {
                    assert(bs.take(nb as int) =~= bs);
                    assert(out@ =~= before + type_block(t@));
                }
            } else {
                proof {
                    assert(t@.bounds.len() == 0);
                    assert(out@ =~= before + type_block(t@));
                }
            }
            proof {
                assert(ts.take(i + 1).drop_last() =~= ts.take(i as int));
                assert(ts.take(i + 1).last() == ts[i as int]);
                assert(out@ =~= "
=== Generic Types ===
"@ + types_section(ts.take(i + 1)));
            }
            i += 1;
        }
        proof {
            assert(ts.take(nt as int) =~= ts);
        }
        out.append("
=== Lifetimes ===
");
        let ghost header = "
=== Generic Types ===
"@ + types_section(ts)
            + "
=== Lifetimes ===
"@;
        proof {
            assert(out@ =~= header);
        }
        let groups = group_lifetimes(&self.lifetimes);
        let ghost gs = lifetime_groups(lifetime_models(self.lifetimes@));
        let ng = groups.len();
        let mut k: usize = 0;
        proof {
            assert(gs.take(0) =~= Seq::<GroupModel>::empty());
            assert(out@ =~= header + lifetimes_section(gs.take(0)));
        }
        while k < ng
            invariant
                k <= ng,
                ng == groups@.len(),
                group_models(groups@) == gs,
                out@ =~= header + lifetimes_section(gs.take(k as int)),
            decreases ng - k,
        {
            let ghost before = out@;
            let g = &groups[k];
            proof {
                assert(g@ == gs[k as int]);
            }
            out.append("
Lifetime '");
            out.append(g.name.as_str());
            out.append("
");
            out.append("  Used in:
");
            let nc = g.contexts.len();
            let ghost cs = g@.contexts;
            let ghost mid = before + "
Lifetime '"@ + g@.name + "
"@ + "  Used in:
"@;
            let mut j: usize = 0;
            proof {
                assert(cs.take(0) =~= Seq::<Seq<char>>::empty());
                assert(out@ =~= mid + context_lines(cs.take(0)));
            }
            while j < nc
                invariant
                    j <= nc,
                    nc == g.contexts@.len(),
                    cs == g@.contexts,
                    out@ =~= mid + context_lines(cs.take(j as int)),
                decreases nc - j,
            {
                proof {
                    assert(cs.take(j + 1).drop_last() =~= cs.take(j as int));
                    assert(cs.take(j + 1).last() == cs[j as int]);
                    assert(cs[j as int] == g.contexts@[j as int]@);
                }
                out.append("    - ");
                out.append(g.contexts[j].as_str());
                out.append("
");
                proof {
                    assert(out@ =~= mid + context_lines(cs.take(j + 1)));
                }
                j += 1;
            }
            proof {
                assert(cs.take(nc as int) =~= cs);
                assert(out@ =~= before + group_block(g@));
                assert(gs.take(k + 1).drop_last() =~= gs.take(k as int));
                assert(gs.take(k + 1).last() == gs[k as int]);
                assert(out@ =~= header + lifetimes_section(gs.take(k + 1)));
            }
            k += 1;
        }
        proof {
            assert(gs.take(ng as int) =~= gs);
            assert(out@ =~= report_text(self@.types, self@.lifetimes));
        }
        out
    }
}

/// How many contexts a sequence of groups holds in all.
pub open spec fn total_contexts(gs: Seq<GroupModel>) -> nat
    decreases gs.len(),
{
    if gs.len() == 0 {
        0
    } else {
        total_contexts(gs.drop_last()) + gs.last().contexts.len()
    }
}

spec fn total_for(names: Seq<Seq<char>>, entries: Seq<LifetimeEntry>) -> nat
    decreases names.len(),
{
    if names.len() == 0 {
        0
    } else {
        total_for(names.drop_last(), entries) + contexts_of(entries, names.last()).len()
    }
}

proof fn lemma_distinct_names_sound(entries: Seq<LifetimeEntry>)
    ensures
        forall|i: int, j: int|
            0 <= i < j < distinct_names(entries).len() ==> distinct_names(entries)[i]
                != distinct_names(entries)[j],
        forall|e: int|
            0 <= e < entries.len() ==> distinct_names(entries).contains(
                #[trigger] entries[e].name,
            ),
        forall|k: int|
            0 <= k < distinct_names(entries).len() ==> exists|e: int|
                0 <= e < entries.len() && entries[e].name == #[trigger] distinct_names(
                    entries,
                )[k],
    decreases entries.len(),
{
    if entries.len() > 0 {
        let s = entries.drop_last();
        let nm = entries.last().name;
        let rest = distinct_names(s);
        let dn = distinct_names(entries);
        lemma_distinct_names_sound(s);
        assert(forall|e: int| 0 <= e < s.len() ==> s[e] == entries[e]);
        if rest.contains(nm) {
            assert(dn == rest);
            assert(entries[entries.len() - 1].name == nm);
        } else {
            assert(dn == rest.push(nm));
            assert(forall|i: int| 0 <= i < rest.len() ==> rest[i] != nm);
            assert(forall|i: int| 0 <= i < rest.len() ==> dn[i] == rest[i]);
            assert(forall|e: int|
                0 <= e < entries.len() ==> dn.contains(#[trigger] entries[e].name)) by {
                assert forall|e: int| 0 <= e < entries.len() implies dn.contains(
                    entries[e].name) by {
                    if e < s.len() {
                        let i = choose|i: int|
                            0 <= i < rest.len() && rest[i] == entries[e].name;
                        assert(dn[i] == entries[e].name);
                    } else {
                        assert(dn[rest.len() as int] == nm);
                    }
                }
            }
        }
    }
}

proof fn lemma_contexts_of_absent(entries: Seq<LifetimeEntry>, nm: Seq<char>)
    requires
        forall|e: int| 0 <= e < entries.len() ==> (#[trigger] entries[e]).name != nm,
    ensures
        contexts_of(entries, nm).len() == 0,
{
    let pred = |x: LifetimeEntry| x.name == nm;
    assert(entries.all(|x: LifetimeEntry| !pred(x))) by {
        assert(forall|e: int| 0 <= e < entries.len() ==> !pred(#[trigger] entries[e]));
    }
    entries.lemma_all_neg_filter_empty(pred);
}

proof fn lemma_total_for_push(
    names: Seq<Seq<char>>,
    entries: Seq<LifetimeEntry>,
    e: LifetimeEntry,
)
    requires
        forall|i: int, j: int| 0 <= i < j < names.len() ==> names[i] != names[j],
    ensures
        names.contains(e.name) ==> total_for(names, entries.push(e)) == total_for(
            names,
            entries,
        ) + 1,
        !names.contains(e.name) ==> total_for(names, entries.push(e)) == total_for(
            names,
            entries,
        ),
    decreases names.len(),
{
    if names.len() > 0 {
        let nm = names.last();
        let rest = names.drop_last();
        lemma_contexts_of_push(entries, e, nm);
        lemma_total_for_push(rest, entries, e);
        assert(forall|i: int| 0 <= i < rest.len() ==> rest[i] == names[i]);
        if nm == e.name {
            assert(names.contains(e.name)) by {
                assert(names[names.len() - 1] == e.name);
            }
            assert(!rest.contains(e.name)) by {
                assert(forall|i: int| 0 <= i < rest.len() ==> rest[i] != nm);
            }
        } else {
            assert(rest.contains(e.name) <==> names.contains(e.name)) by {
                if names.contains(e.name) {
                    let i = choose|i: int| 0 <= i < names.len() && names[i] == e.name;
                    assert(i < rest.len() && rest[i] == e.name);
                }
                if rest.contains(e.name) {
                    let i = choose|i: int| 0 <= i < rest.len() && rest[i] == e.name;
                    assert(names[i] == e.name);
                }
            }
        }
    }
}

proof fn lemma_total_for_distinct(entries: Seq<LifetimeEntry>)
    ensures
        total_for(distinct_names(entries), entries) == entries.len(),
    decreases entries.len(),
{
    if entries.len() == 0 {
    } else {
        let s = entries.drop_last();
        let e = entries.last();
        let dn0 = distinct_names(s);
        lemma_total_for_distinct(s);
        lemma_distinct_names_sound(s);
        assert(entries =~= s.push(e));
        if dn0.contains(e.name) {
            assert(distinct_names(entries) == dn0);
            lemma_total_for_push(dn0, s, e);
        } else {
            assert(distinct_names(entries) == dn0.push(e.name));
            lemma_total_for_push(dn0, s, e);
            assert(total_for(dn0.push(e.name), s.push(e)) == total_for(dn0, s.push(e))
                + contexts_of(s.push(e), e.name).len()) by {
                assert(dn0.push(e.name).drop_last() =~= dn0);
                assert(dn0.push(e.name).last() == e.name);
            }
            assert(forall|i: int| 0 <= i < s.len() ==> (#[trigger] s[i]).name != e.name) by {
                assert forall|i: int| 0 <= i < s.len() implies s[i].name != e.name by {
                    if s[i].name == e.name {
                        assert(dn0.contains(s[i].name));
                    }
                }
            }
            lemma_contexts_of_absent(s, e.name);
            lemma_contexts_of_push(s, e, e.name);
            assert(contexts_of(s, e.name) =~= Seq::<Seq<char>>::empty());
            assert(contexts_of(s.push(e), e.name).len() == 1);
        }
    }
}

proof fn lemma_total_contexts_groups(names: Seq<Seq<char>>, entries: Seq<LifetimeEntry>)
    ensures
        total_contexts(
            names.map_values(
                |n: Seq<char>| GroupModel { name: n, contexts: contexts_of(entries, n) },
            ),
        ) == total_for(names, entries),
    decreases names.len(),
{
    let f = |n: Seq<char>| GroupModel { name: n, contexts: contexts_of(entries, n) };
    if names.len() > 0 {
        lemma_total_contexts_groups(names.drop_last(), entries);
        assert(names.map_values(f).drop_last() =~= names.drop_last().map_values(f));
        assert(names.map_values(f).last() == f(names.last()));
    } else {
        assert(names.map_values(f).len() == 0);
    }
}

/// Lifetime grouping is a strict partition of the recorded entries: the
/// groups carry distinct names; each group holds exactly the contexts of the
/// entries bearing its name, in collection order; every entry's name has a
/// group; and the group sizes add up to the number of entries, so no entry
/// is dropped and none is counted twice.
pub proof fn lemma_grouping_partition(entries: Seq<LifetimeEntry>)
    ensures
        forall|i: int, j: int|
            0 <= i < j < lifetime_groups(entries).len() ==> lifetime_groups(entries)[i].name
                != lifetime_groups(entries)[j].name,
        forall|k: int|
            0 <= k < lifetime_groups(entries).len() ==> (#[trigger] lifetime_groups(
                entries,
            )[k]).contexts == contexts_of(entries, lifetime_groups(entries)[k].name),
        forall|e: int|
            0 <= e < entries.len() ==> exists|k: int|
                0 <= k < lifetime_groups(entries).len() && lifetime_groups(entries)[k].name
                    == (#[trigger] entries[e]).name,
        total_contexts(lifetime_groups(entries)) == entries.len(),
{
    let dn = distinct_names(entries);
    let gs = lifetime_groups(entries);
    let f = |n: Seq<char>| GroupModel { name: n, contexts: contexts_of(entries, n) };
    lemma_distinct_names_sound(entries);
    assert(forall|k: int| 0 <= k < gs.len() ==> (#[trigger] gs[k]) == f(dn[k]));
    assert forall|e: int| 0 <= e < entries.len() implies exists|k: int|
        0 <= k < gs.len() && gs[k].name == (#[trigger] entries[e]).name by {
        assert(dn.contains(entries[e].name));
        let k = choose|k: int| 0 <= k < dn.len() && dn[k] == entries[e].name;
        assert(gs[k].name == entries[e].name);
    }
    lemma_total_for_distinct(entries);
    lemma_total_contexts_groups(dn, entries);
}

/// The report is one function of the recorded entries, and the entries are
/// one function of the tree and the starting label: walking equal trees
/// twice from equal labels yields, letter for letter, the same report text.
/// Group enumeration order is stable for the same reason: it is fixed by the
/// order of first appearance, not by any per-run state.
pub proof fn lemma_report_deterministic(a: Seq<Item>, b: Seq<Item>, ctx: Seq<char>)
    requires
        a == b,
    ensures
        report_text(walk_items(a, ctx).types, walk_items(a, ctx).lifetimes) == report_text(
            walk_items(b, ctx).types,
            walk_items(b, ctx).lifetimes,
        ),
{
}

} // verus!
