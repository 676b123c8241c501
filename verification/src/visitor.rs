use vstd::prelude::*;
use vstd::string::StringExecFns;

use crate::ast::{GenericParam, Item, ItemKind};

verus! {

/// A recorded type parameter: its name, its rendered trait bounds in
/// declaration order, and the context label it was found under.
pub struct TypeInfo {
    pub name: String,
    pub bounds: Vec<String>,
    pub context: String,
}

/// A recorded lifetime parameter: its bare name and the context label it was
/// found under.
pub struct LifetimeInfo {
    pub name: String,
    pub context: String,
}

/// Mathematical image of a recorded type parameter.
#[verifier::ext_equal]
pub ghost struct TypeEntry {
    pub name: Seq<char>,
    pub bounds: Seq<Seq<char>>,
    pub context: Seq<char>,
}

/// Mathematical image of a recorded lifetime parameter.
#[verifier::ext_equal]
pub ghost struct LifetimeEntry {
    pub name: Seq<char>,
    pub context: Seq<char>,
}

impl View for TypeInfo {
    type V = TypeEntry;

    open spec fn view(&self) -> TypeEntry {
        TypeEntry { name: self.name@, bounds: self.bounds.deep_view(), context: self.context@ }
    }
}

impl View for LifetimeInfo {
    type V = LifetimeEntry;

    open spec fn view(&self) -> LifetimeEntry {
        LifetimeEntry { name: self.name@, context: self.context@ }
    }
}

/// The images of a sequence of recorded type parameters.
pub open spec fn type_models(s: Seq<TypeInfo>) -> Seq<TypeEntry> {
    s.map_values(|t: TypeInfo| t@)
}

/// The images of a sequence of recorded lifetime parameters.
pub open spec fn lifetime_models(s: Seq<LifetimeInfo>) -> Seq<LifetimeEntry> {
    s.map_values(|e: LifetimeInfo| e@)
}

/// Mathematical image of the traversal state: the entries recorded so far,
/// in order, and the current context label.
pub ghost struct VisitorModel {
    pub types: Seq<TypeEntry>,
    pub lifetimes: Seq<LifetimeEntry>,
    pub context: Seq<char>,
}

/// The traversal state: the entries recorded so far and the label of the
/// enclosing declaration, overwritten whenever the walk reaches a struct,
/// trait or function declaration.
pub struct GenericVisitor {
    pub types: Vec<TypeInfo>,
    pub lifetimes: Vec<LifetimeInfo>,
    pub current_context: String,
}

impl View for GenericVisitor {
    type V = VisitorModel;

    open spec fn view(&self) -> VisitorModel {
        VisitorModel {
            types: type_models(self.types@),
            lifetimes: lifetime_models(self.lifetimes@),
            context: self.current_context@,
        }
    }
}

/// The context label a declaration sets: its kind word followed by its own
/// name. A node of the kind that sets no label keeps the enclosing one.
pub open spec fn label_of(item: Item, ctx: Seq<char>) -> Seq<char> {
    match item.kind {
        ItemKind::Struct => "struct "@ + item.name@,
        ItemKind::Trait => "trait "@ + item.name@,
        ItemKind::Function => "function "@ + item.name@,
        ItemKind::Other => ctx,
    }
}

/// The entry a type parameter contributes under a given context label.
pub open spec fn type_entry_of(p: GenericParam, ctx: Seq<char>) -> TypeEntry
    recommends
        p is TypeParam,
{
    match p {
        GenericParam::TypeParam { name, bounds } => TypeEntry {
            name: name@,
            bounds: bounds.deep_view(),
            context: ctx,
        },
        _ => arbitrary(),
    }
}

/// The entry a lifetime parameter contributes under a given context label.
pub open spec fn lifetime_entry_of(p: GenericParam, ctx: Seq<char>) -> LifetimeEntry
    recommends
        p is LifetimeParam,
{
    match p {
        GenericParam::LifetimeParam { name } => LifetimeEntry { name: name@, context: ctx },
        _ => arbitrary(),
    }
}

/// The type entries one parameter list contributes under a given context
/// label, in declaration order.
pub open spec fn type_entries(params: Seq<GenericParam>, ctx: Seq<char>) -> Seq<TypeEntry>
    decreases params.len(),
{
    if params.len() == 0 {
        Seq::empty()
    } else {
        let rest = type_entries(params.drop_last(), ctx);
        if params.last() is TypeParam {
            rest.push(type_entry_of(params.last(), ctx))
        } else {
            rest
        }
    }
}

/// The lifetime entries one parameter list contributes under a given context
/// label, in declaration order.
pub open spec fn lifetime_entries(params: Seq<GenericParam>, ctx: Seq<char>) -> Seq<LifetimeEntry>
    decreases params.len(),
{
    if params.len() == 0 {
        Seq::empty()
    } else {
        let rest = lifetime_entries(params.drop_last(), ctx);
        if params.last() is LifetimeParam {
            rest.push(lifetime_entry_of(params.last(), ctx))
        } else {
            rest
        }
    }
}

/// Everything one traversal step produces: the entries it records, in order,
/// and the context label it leaves behind.
pub ghost struct Walk {
    pub types: Seq<TypeEntry>,
    pub lifetimes: Seq<LifetimeEntry>,
    pub context: Seq<char>,
}

/// The traversal of one node: set the label (for the kinds that do), record
/// the node's own parameters under it, then walk the children in order. The
/// label is overwritten, never restored, so the walk leaves behind whatever
/// label the last nested declaration set.
pub open spec fn walk_item(item: Item, ctx: Seq<char>) -> Walk
    decreases item, 1int,
{
    let lab = label_of(item, ctx);
    let w = walk_items(item.children@, lab);
    Walk {
        types: type_entries(item.params@, lab) + w.types,
        lifetimes: lifetime_entries(item.params@, lab) + w.lifetimes,
        context: w.context,
    }
}

/// The traversal of a forest, threading the label each node leaves behind
/// into the next.
pub open spec fn walk_items(items: Seq<Item>, ctx: Seq<char>) -> Walk
    decreases items, 0int,
{
    if items.len() == 0 {
        Walk { types: Seq::empty(), lifetimes: Seq::empty(), context: ctx }
    } else {
        let w1 = walk_items(items.drop_last(), ctx);
        let w2 = walk_item(items.last(), w1.context);
        Walk {
            types: w1.types + w2.types,
            lifetimes: w1.lifetimes + w2.lifetimes,
            context: w2.context,
        }
    }
}

proof fn lemma_type_models_push(s: Seq<TypeInfo>, x: TypeInfo)
    ensures
        type_models(s.push(x)) == type_models(s).push(x@),
{
    assert(type_models(s.push(x)) =~= type_models(s).push(x@));
}

proof fn lemma_lifetime_models_push(s: Seq<LifetimeInfo>, x: LifetimeInfo)
    ensures
        lifetime_models(s.push(x)) == lifetime_models(s).push(x@),
{
    assert(lifetime_models(s.push(x)) =~= lifetime_models(s).push(x@));
}

/// An owned copy of a list of rendered bounds.
fn clone_strings(v: &Vec<String>) -> (r: Vec<String>)
    ensures
        r@ == v@,
{
    let mut r: Vec<String> = Vec::new();
    let mut i: usize = 0;
    while i < v.len()
        invariant
            i <= v@.len(),
            r@ =~= v@.take(i as int),
        decreases v@.len() - i,
    {
        r.push(v[i].clone());
        proof {
            assert(r@ =~= v@.take(i + 1));
        }
        i += 1;
    }
    proof {
        assert(v@.take(v@.len() as int) =~= v@);
    }
    r
}

impl GenericVisitor {
    /// A fresh traversal state: no entries, an empty context label.
    pub fn new() -> (v: GenericVisitor)
        ensures
            v@.types == Seq::<TypeEntry>::empty(),
            v@.lifetimes == Seq::<LifetimeEntry>::empty(),
            v@.context == Seq::<char>::empty(),
    {
        let v = GenericVisitor { types: Vec::new(), lifetimes: Vec::new(), current_context: String::new() };
        proof {
            assert(v@.types =~= Seq::<TypeEntry>::empty());
            assert(v@.lifetimes =~= Seq::<LifetimeEntry>::empty());
        }
        v
    }

    /// Replaces the current context label; the recorded entries stay as they
    /// are.
    pub fn set_context(&mut self, context: &str)
        ensures
            final(self)@.types == old(self)@.types,
            final(self)@.lifetimes == old(self)@.lifetimes,
            final(self)@.context == context@,
    {
        self.current_context = context.to_owned();
    }

    /// Records one entry per type or lifetime parameter, in declaration
    /// order, each under the current context label; parameters of any other
    /// kind are passed over. The label itself is untouched.
    pub fn visit_generics(&mut self, params: &Vec<GenericParam>)
        ensures
            final(self)@.types == old(self)@.types + type_entries(params@, old(self)@.context),
            final(self)@.lifetimes == old(self)@.lifetimes
                + lifetime_entries(params@, old(self)@.context),
            final(self)@.context == old(self)@.context,
    {
        let ghost pre = self@;
        let n = params.len();
        let mut i: usize = 0;
        while i < n
            invariant
                i <= n,
                n == params@.len(),
                self@.types =~= pre.types + type_entries(params@.take(i as int), pre.context),
                self@.lifetimes =~= pre.lifetimes
                    + lifetime_entries(params@.take(i as int), pre.context),
                self@.context == pre.context,
            decreases n - i,
        {
            proof {
                assert(params@.take(i + 1 as int).drop_last() =~= params@.take(i as int));
                assert(params@.take(i + 1 as int).last() == params@[i as int]);
            }
            match &params[i] {
                GenericParam::TypeParam { name, bounds } => {
                    let entry = TypeInfo {
                        name: name.clone(),
                        bounds: clone_strings(bounds),
                        context: self.current_context.clone(),
                    };
                    let ghost prev = self.types@;
                    self.types.push(entry);
                    proof {
                        let ghost ps = params@;
                        let ghost e = type_entry_of(ps[i as int], pre.context);
                        let ghost rest = type_entries(ps.take(i as int), pre.context);
                        assert(ps.take(i + 1).last() == ps[i as int]);
                        assert(ps.take(i + 1).drop_last() =~= ps.take(i as int));
                        assert(type_entries(ps.take(i + 1), pre.context) == rest.push(e));
                        assert(entry@ =~~= e);
                        lemma_type_models_push(prev, entry);
                        assert(pre.types + rest.push(e) =~= (pre.types + rest).push(e));
                        assert(self@.types =~= pre.types
                            + type_entries(params@.take(i + 1 as int), pre.context));
                    }
                }
                GenericParam::LifetimeParam { name } => {
                    let entry = LifetimeInfo {
                        name: name.clone(),
                        context: self.current_context.clone(),
                    };
                    let ghost prev = self.lifetimes@;
                    self.lifetimes.push(entry);
                    proof {
                        let ghost ps = params@;
                        let ghost e = lifetime_entry_of(ps[i as int], pre.context);
                        let ghost rest = lifetime_entries(ps.take(i as int), pre.context);
                        assert(ps.take(i + 1).last() == ps[i as int]);
                        assert(ps.take(i + 1).drop_last() =~= ps.take(i as int));
                        assert(lifetime_entries(ps.take(i + 1), pre.context) == rest.push(e));
                        assert(entry@ =~~= e);
                        lemma_lifetime_models_push(prev, entry);
                        assert(pre.lifetimes + rest.push(e) =~= (pre.lifetimes + rest).push(e));
                        assert(self@.lifetimes =~= pre.lifetimes
                            + lifetime_entries(params@.take(i + 1 as int), pre.context));
                    }
                }
                GenericParam::OtherParam => {}
            }
            i += 1;
        }
        proof {
            assert(params@.take(n as int) =~= params@);
            assert(self@.types =~= pre.types + type_entries(params@, pre.context));
            assert(self@.lifetimes =~= pre.lifetimes + lifetime_entries(params@, pre.context));
        }
    }

    /// The traversal of one node, as `walk_item` describes it: a struct,
    /// trait or function declaration overwrites the context label with its
    /// kind word and name; the node's own parameters are recorded under the
    /// label so set; the children are then walked in order, each handing the
    /// label it leaves behind to the next.
    pub fn visit_item(&mut self, item: &Item)
        ensures
            final(self)@.types == old(self)@.types + walk_item(*item, old(self)@.context).types,
            final(self)@.lifetimes == old(self)@.lifetimes
                + walk_item(*item, old(self)@.context).lifetimes,
            final(self)@.context == walk_item(*item, old(self)@.context).context,
        decreases *item,
    {
        let ghost pre = self@;
        let ghost lab = label_of(*item, pre.context);
        match item.kind {
            ItemKind::Struct => {
                let mut label = String::from_str("struct ");
                label.append(item.name.as_str());
                self.set_context(label.as_str());
            }
            ItemKind::Trait => {
                let mut label = String::from_str("trait ");
                label.append(item.name.as_str());
                self.set_context(label.as_str());
            }
            ItemKind::Function => {
                let mut label = String::from_str("function ");
                label.append(item.name.as_str());
                self.set_context(label.as_str());
            }
            ItemKind::Other => {}
        }
        self.visit_generics(&item.params);
        let ghost entered = pre.types + type_entries(item.params@, lab);
        let ghost entered_lts = pre.lifetimes + lifetime_entries(item.params@, lab);
        let n = item.children.len();
        let mut i: usize = 0;
        while i < n
            invariant
                i <= n,
                n == item.children@.len(),
                entered == pre.types + type_entries(item.params@, lab),
                entered_lts == pre.lifetimes + lifetime_entries(item.params@, lab),
                lab == label_of(*item, pre.context),
                self@.types =~= entered + walk_items(item.children@.take(i as int), lab).types,
                self@.lifetimes =~= entered_lts
                    + walk_items(item.children@.take(i as int), lab).lifetimes,
                self@.context == walk_items(item.children@.take(i as int), lab).context,
            decreases n - i,
        {
            proof {
                assert(decreases_to!(*item => item.children@[i as int]));
            }
            self.visit_item(&item.children[i]);
            proof {
                let ghost cs = item.children@;
                let ghost w1 = walk_items(cs.take(i as int), lab);
                let ghost w2 = walk_item(cs[i as int], w1.context);
                assert(cs.take(i + 1).drop_last() =~= cs.take(i as int));
                assert(cs.take(i + 1).last() == cs[i as int]);
                assert(walk_items(cs.take(i + 1), lab).types == w1.types + w2.types);
                assert(entered + (w1.types + w2.types) =~= (entered + w1.types) + w2.types);
                assert(entered_lts + (w1.lifetimes + w2.lifetimes) =~= (entered_lts
                    + w1.lifetimes) + w2.lifetimes);
            }
            i += 1;
        }
        proof {
            assert(item.children@.take(n as int) =~= item.children@);
            let ghost w = walk_items(item.children@, lab);
            assert(walk_item(*item, pre.context).types == type_entries(item.params@, lab)
                + w.types);
            assert(entered + w.types =~= pre.types + (type_entries(item.params@, lab) + w.types));
            assert(entered_lts + w.lifetimes =~= pre.lifetimes + (lifetime_entries(item.params@,
                lab) + w.lifetimes));
        }
    }

    /// The traversal of a whole file: its top-level declarations in order,
    /// each handing the context label it leaves behind to the next.
    pub fn visit_file(&mut self, items: &Vec<Item>)
        ensures
            final(self)@.types == old(self)@.types + walk_items(items@, old(self)@.context).types,
            final(self)@.lifetimes == old(self)@.lifetimes
                + walk_items(items@, old(self)@.context).lifetimes,
            final(self)@.context == walk_items(items@, old(self)@.context).context,
    {
        let ghost pre = self@;
        let n = items.len();
        let mut i: usize = 0;
        while i < n
            invariant
                i <= n,
                n == items@.len(),
                self@.types =~= pre.types + walk_items(items@.take(i as int), pre.context).types,
                self@.lifetimes =~= pre.lifetimes
                    + walk_items(items@.take(i as int), pre.context).lifetimes,
                self@.context == walk_items(items@.take(i as int), pre.context).context,
            decreases n - i,
        {
            self.visit_item(&items[i]);
            proof {
                let ghost cs = items@;
                let ghost w1 = walk_items(cs.take(i as int), pre.context);
                let ghost w2 = walk_item(cs[i as int], w1.context);
                assert(cs.take(i + 1).drop_last() =~= cs.take(i as int));
                assert(cs.take(i + 1).last() == cs[i as int]);
                assert(walk_items(cs.take(i + 1), pre.context).types == w1.types + w2.types);
                assert(pre.types + (w1.types + w2.types) =~= (pre.types + w1.types) + w2.types);
                assert(pre.lifetimes + (w1.lifetimes + w2.lifetimes) =~= (pre.lifetimes
                    + w1.lifetimes) + w2.lifetimes);
            }
            i += 1;
        }
        proof {
            assert(items@.take(n as int) =~= items@);
        }
    }
}

/// How many type parameters a parameter list declares.
pub open spec fn count_type_params(params: Seq<GenericParam>) -> nat
    decreases params.len(),
{
    if params.len() == 0 {
        0
    } else {
        count_type_params(params.drop_last()) + if params.last() is TypeParam {
            1nat
        } else {
            0nat
        }
    }
}

/// How many lifetime parameters a parameter list declares.
pub open spec fn count_lifetime_params(params: Seq<GenericParam>) -> nat
    decreases params.len(),
{
    if params.len() == 0 {
        0
    } else {
        count_lifetime_params(params.drop_last()) + if params.last() is LifetimeParam {
            1nat
        } else {
            0nat
        }
    }
}

/// A parameter list under a fixed context label yields exactly one type
/// entry per type parameter and one lifetime entry per lifetime parameter,
/// every entry carrying that label.
pub proof fn lemma_param_entries_counted(params: Seq<GenericParam>, ctx: Seq<char>)
    ensures
        type_entries(params, ctx).len() == count_type_params(params),
        lifetime_entries(params, ctx).len() == count_lifetime_params(params),
        forall|i: int|
            0 <= i < type_entries(params, ctx).len()
                ==> (#[trigger] type_entries(params, ctx)[i]).context == ctx,
        forall|i: int|
            0 <= i < lifetime_entries(params, ctx).len()
                ==> (#[trigger] lifetime_entries(params, ctx)[i]).context == ctx,
    decreases params.len(),
{
    if params.len() > 0 {
        lemma_param_entries_counted(params.drop_last(), ctx);
    }
}

/// A declaration with N type parameters and M lifetime parameters yields,
/// first, exactly N type entries and M lifetime entries, all carrying the
/// declaration's own label; entries for anything nested in its body only
/// follow after those.
pub proof fn lemma_declaration_entries(item: Item, ctx: Seq<char>)
    ensures
        type_entries(item.params@, label_of(item, ctx)).len() == count_type_params(item.params@),
        lifetime_entries(item.params@, label_of(item, ctx)).len() == count_lifetime_params(
            item.params@,
        ),
        walk_item(item, ctx).types.take(count_type_params(item.params@) as int) == type_entries(
            item.params@,
            label_of(item, ctx),
        ),
        walk_item(item, ctx).lifetimes.take(count_lifetime_params(item.params@) as int)
            == lifetime_entries(item.params@, label_of(item, ctx)),
        forall|i: int|
            0 <= i < count_type_params(item.params@)
                ==> (#[trigger] walk_item(item, ctx).types[i]).context == label_of(item, ctx),
        forall|i: int|
            0 <= i < count_lifetime_params(item.params@)
                ==> (#[trigger] walk_item(item, ctx).lifetimes[i]).context == label_of(item, ctx),
{
    let lab = label_of(item, ctx);
    lemma_param_entries_counted(item.params@, lab);
    assert(walk_item(item, ctx).types.take(count_type_params(item.params@) as int)
        =~= type_entries(item.params@, lab));
    assert(walk_item(item, ctx).lifetimes.take(count_lifetime_params(item.params@) as int)
        =~= lifetime_entries(item.params@, lab));
}

/// Bound rendering is order-preserving: the type parameter at position i of
/// a parameter list yields the entry at position "number of type parameters
/// before it", and that entry carries the parameter's name and exactly its
/// rendered bound list, in declaration order.
pub proof fn lemma_bounds_order(params: Seq<GenericParam>, ctx: Seq<char>, i: int)
    requires
        0 <= i < params.len(),
        params[i] is TypeParam,
    ensures
        count_type_params(params.take(i)) < type_entries(params, ctx).len(),
        type_entries(params, ctx)[count_type_params(params.take(i)) as int] == type_entry_of(
            params[i],
            ctx,
        ),
    decreases params.len(),
{
    lemma_param_entries_counted(params, ctx);
    if i == params.len() - 1 {
        lemma_param_entries_counted(params.drop_last(), ctx);
        assert(params.take(i) =~= params.drop_last());
        assert(params.last() == params[i]);
    } else {
        lemma_bounds_order(params.drop_last(), ctx, i);
        assert(params.drop_last().take(i) =~= params.take(i));
        assert(params.drop_last()[i] == params[i]);
    }
}

} // verus!
