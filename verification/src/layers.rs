//! Layers of configuration, which override each other by their source.
use crate::config_crate::{clone_config, config_tree};
use crate::source::ConfigSource;
use vstd::prelude::*;

verus! {

/// Set of configuration variables with source information.
#[derive(Debug)]
pub struct ConfigLayer {
    /// Source of the variables.
    pub source: ConfigSource,
    /// The variables.
    pub data: config::Config,
}

impl ConfigLayer {
    /// The layers have the same source, and hold the same.
    pub open spec fn same_as(self, other: ConfigLayer) -> bool {
        self.source == other.source && config_tree(self.data) == config_tree(other.data)
    }
}

impl Clone for ConfigLayer {
    fn clone(&self) -> (copy: Self)
        ensures
            copy.same_as(*self),
    {
        ConfigLayer { source: self.source, data: clone_config(&self.data) }
    }
}

/// The layers of two stacks are the same.
pub open spec fn same_layers(a: Seq<ConfigLayer>, b: Seq<ConfigLayer>) -> bool {
    a.len() == b.len() && forall|i: int| 0 <= i < a.len() ==> (#[trigger] a[i]).same_as(b[i])
}

/// Stack of configuration layers, in order of the precedence of their sources.
#[derive(Debug)]
pub struct StackedConfig {
    layers: Vec<ConfigLayer>,
}

impl View for StackedConfig {
    type V = Seq<ConfigLayer>;

    closed spec fn view(&self) -> Seq<ConfigLayer> {
        self.layers@
    }
}

impl Clone for StackedConfig {
    fn clone(&self) -> (copy: Self)
        ensures
            same_layers(copy@, self@),
            copy.wf(),
    {
        proof {
            use_type_invariant(self);
        }
        let mut layers: Vec<ConfigLayer> = Vec::new();
        let mut i: usize = 0;
        while i < self.layers.len()
            invariant
                i <= self.layers.len(),
                layers.len() == i,
                forall|j: int| 0 <= j < i ==> (#[trigger] layers@[j]).same_as(self.layers@[j]),
            decreases self.layers.len() - i,
        {
            layers.push(self.layers[i].clone());
            i += 1;
        }
        assert forall|a: int, b: int| 0 <= a < b < layers.len() implies (
        #[trigger] layers@[a]).source.spec_rank() <= (#[trigger] layers@[b]).source.spec_rank() by {
            assert(self.layers@[a].source.spec_rank() <= self.layers@[b].source.spec_rank());
        }
        StackedConfig { layers }
    }
}

/// The layers stand in order of the precedence of their sources, the lowest
/// first.
pub open spec fn by_precedence(layers: Seq<ConfigLayer>) -> bool {
    forall|i: int, j: int|
        0 <= i < j < layers.len() ==> (#[trigger] layers[i]).source.spec_rank() <= (
        #[trigger] layers[j]).source.spec_rank()
}

/// The layers that do not come from `source`, in their order.
pub open spec fn without_source(layers: Seq<ConfigLayer>, source: ConfigSource) -> Seq<ConfigLayer>
    decreases layers.len(),
{
    if layers.len() == 0 {
        Seq::empty()
    } else if layers.last().source == source {
        without_source(layers.drop_last(), source)
    } else {
        without_source(layers.drop_last(), source).push(layers.last())
    }
}

/// `i` is where layers from `source` are added: all layers of a lower or the
/// same precedence stand before it, and all of a higher one after it.
pub open spec fn insert_point(layers: Seq<ConfigLayer>, source: ConfigSource, i: int) -> bool {
    &&& 0 <= i <= layers.len()
    &&& forall|j: int|
        0 <= j < i ==> (#[trigger] layers[j]).source.spec_rank() <= source.spec_rank()
    &&& forall|j: int|
        i <= j < layers.len() ==> (#[trigger] layers[j]).source.spec_rank() > source.spec_rank()
}

/// `after` is `before` with `added`, which come from `source`, put where their
/// precedence wants them.
pub open spec fn layers_added(
    before: Seq<ConfigLayer>,
    source: ConfigSource,
    added: Seq<ConfigLayer>,
    after: Seq<ConfigLayer>,
) -> bool {
    exists|i: int| #[trigger]
        insert_point(before, source, i) && after == before.take(i) + added + before.skip(i)
}

/// The layers that stay come from those before, in their order.
pub proof fn lemma_without_source(layers: Seq<ConfigLayer>, source: ConfigSource)
    ensures
        forall|i: int|
            0 <= i < without_source(layers, source).len() ==> (#[trigger] without_source(
                layers,
                source,
            )[i]).source != source && layers.contains(without_source(layers, source)[i]),
        by_precedence(layers) ==> by_precedence(without_source(layers, source)),
    decreases layers.len(),
{
    if layers.len() > 0 {
        let front = layers.drop_last();
        lemma_without_source(front, source);
        let rest = without_source(front, source);
        let result = without_source(layers, source);
        assert forall|i: int| 0 <= i < result.len() implies (#[trigger] result[i]).source != source
            && layers.contains(result[i]) by {
            if i < rest.len() {
                assert(result[i] == rest[i]);
                assert(front.contains(rest[i]));
                let j = choose|j: int| 0 <= j < front.len() && front[j] == rest[i];
                assert(layers[j] == rest[i]);
            } else {
                assert(layers[layers.len() - 1] == result[i]);
            }
        }
        if by_precedence(layers) {
            assert(by_precedence(front)) by {
                assert(forall|i: int| 0 <= i < front.len() ==> #[trigger] front[i] == layers[i]);
            }
            assert forall|i: int, j: int| 0 <= i < j < result.len() implies (
            #[trigger] result[i]).source.spec_rank() <= (#[trigger] result[j]).source.spec_rank() by {
                if j < rest.len() {
                    assert(result[i] == rest[i] && result[j] == rest[j]);
                } else {
                    assert(result[i] == rest[i]);
                    assert(front.contains(rest[i]));
                    let k = choose|k: int| 0 <= k < front.len() && front[k] == rest[i];
                    assert(layers[k] == rest[i]);
                    assert(layers[layers.len() - 1] == result[j]);
                }
            }
        }
    }
}

impl StackedConfig {
    /// The layers stand in order of precedence.
    #[verifier::type_invariant]
    pub open spec fn wf(self) -> bool {
        by_precedence(self@)
    }

    /// Creates a stack without layers.
    pub fn empty() -> (stack: Self)
        ensures
            stack.wf(),
            stack@ == Seq::<ConfigLayer>::empty(),
    {
        StackedConfig { layers: Vec::new() }
    }

    /// Finds where layers from `source` are added.
    fn find_insert_point(&self, source: ConfigSource) -> (index: usize)
        ensures
            insert_point(self@, source, index as int),
    {
        proof {
            use_type_invariant(self);
        }
        let mut index: usize = self.layers.len();
        while index > 0 && self.layers[index - 1].source.rank() > source.rank()
            invariant
                index <= self.layers.len(),
                forall|j: int|
                    index <= j < self.layers.len() ==> (
                    #[trigger] self.layers@[j]).source.spec_rank() > source.spec_rank(),
            decreases index,
        {
            index -= 1;
        }
        proof {
            assert forall|j: int| 0 <= j < index implies (#[trigger] self@[j]).source.spec_rank()
                <= source.spec_rank() by {
                if j < index - 1 {
                    assert(self@[j].source.spec_rank() <= self@[index - 1].source.spec_rank());
                }
            }
        }
        index
    }

    /// Inserts a layer at the position specified by its source.
    pub fn add_layer(&mut self, layer: ConfigLayer)
        ensures
            final(self).wf(),
            layers_added(old(self)@, layer.source, seq![layer], final(self)@),
    {
        proof {
            use_type_invariant(&*self);
        }
        let ghost before = self@;
        let index = self.find_insert_point(layer.source);
        let mut layers: Vec<ConfigLayer> = Vec::new();
        std::mem::swap(&mut layers, &mut self.layers);
        layers.insert(index, layer);
        proof {
            assert(insert_point(before, layer.source, index as int));
            assert(layers@ =~= before.take(index as int) + seq![layer] + before.skip(
                index as int,
            ));
            lemma_added_by_precedence(before, layer.source, seq![layer], layers@);
        }
        self.layers = layers;
    }

    /// Inserts layers, in their order, at the position specified by their
    /// source.
    pub fn extend_layers(&mut self, source: ConfigSource, layers: Vec<ConfigLayer>)
        requires
            forall|i: int| 0 <= i < layers.len() ==> (#[trigger] layers@[i]).source == source,
        ensures
            final(self).wf(),
            layers_added(old(self)@, source, layers@, final(self)@),
    {
        proof {
            use_type_invariant(&*self);
        }
        let ghost before = self@;
        let ghost added = layers@;
        let index = self.find_insert_point(source);
        let mut layers = layers;
        let mut all: Vec<ConfigLayer> = Vec::new();
        std::mem::swap(&mut all, &mut self.layers);
        assert(all@ =~= before.take(index as int) + added.skip(added.len() as int) + before.skip(
            index as int,
        ));
        while layers.len() > 0
            invariant
                insert_point(before, source, index as int),
                layers.len() <= added.len(),
                layers@ == added.take(layers.len() as int),
                all@ == before.take(index as int) + added.skip(layers.len() as int) + before.skip(
                    index as int,
                ),
            decreases layers.len(),
        {
            let ghost n = layers.len() as int;
            let layer = layers.pop().unwrap();
            all.insert(index, layer);
            assert(all@ =~= before.take(index as int) + added.skip(n - 1) + before.skip(
                index as int,
            ));
        }
        proof {
            assert(added.skip(0) =~= added);
            assert(insert_point(before, source, index as int));
            lemma_added_by_precedence(before, source, added, all@);
        }
        self.layers = all;
    }

    /// Removes the layers of the specified source.
    pub fn remove_layers(&mut self, source: ConfigSource)
        ensures
            final(self).wf(),
            final(self)@ == without_source(old(self)@, source),
    {
        proof {
            use_type_invariant(&*self);
        }
        let ghost before = self@;
        let mut layers: Vec<ConfigLayer> = Vec::new();
        std::mem::swap(&mut layers, &mut self.layers);
        let ghost mut seen: int = 0;
        let mut i: usize = 0;
        assert(before.take(0) =~= Seq::empty());
        while i < layers.len()
            invariant
                0 <= seen <= before.len(),
                i == without_source(before.take(seen), source).len(),
                layers@ == without_source(before.take(seen), source) + before.skip(seen),
            decreases before.len() - seen,
        {
            let ghost kept = without_source(before.take(seen), source);
            let ghost here = layers@;
            assert(before.take(seen + 1).drop_last() =~= before.take(seen));
            assert(here[i as int] == before[seen]);
            if layers[i].source == source {
                let _ = layers.remove(i);
                assert(layers@ =~= kept + before.skip(seen + 1));
            } else {
                i += 1;
                assert(layers@ =~= kept.push(before[seen]) + before.skip(seen + 1));
            }
            proof {
                seen = seen + 1;
            }
        }
        proof {
            assert(before.skip(seen).len() == 0);
            assert(before.take(seen) =~= before);
            assert(layers@ =~= without_source(before, source));
            lemma_without_source(before, source);
        }
        self.layers = layers;
    }

    /// The layers, in order of precedence.
    pub fn layers(&self) -> (layers: &Vec<ConfigLayer>)
        ensures
            layers@ == self@,
            by_precedence(layers@),
    {
        proof {
            use_type_invariant(self);
        }
        &self.layers
    }
}

proof fn lemma_added_by_precedence(
    before: Seq<ConfigLayer>,
    source: ConfigSource,
    added: Seq<ConfigLayer>,
    after: Seq<ConfigLayer>,
)
    requires
        by_precedence(before),
        layers_added(before, source, added, after),
        forall|i: int| 0 <= i < added.len() ==> (#[trigger] added[i]).source == source,
    ensures
        by_precedence(after),
{
    let p = choose|p: int| #[trigger]
        insert_point(before, source, p) && after == before.take(p) + added + before.skip(p);
    let n = added.len();
    assert forall|i: int, j: int| 0 <= i < j < after.len() implies (
    #[trigger] after[i]).source.spec_rank() <= (#[trigger] after[j]).source.spec_rank() by {
        if i < p {
            assert(after[i] == before[i]);
        } else if i < p + n {
            assert(after[i] == added[i - p]);
        } else {
            assert(after[i] == before[i - n]);
        }
        if j < p {
            assert(after[j] == before[j]);
        } else if j < p + n {
            assert(after[j] == added[j - p]);
        } else {
            assert(after[j] == before[j - n]);
        }
    }
}

/// Layers that none of the others overrides come last.
pub proof fn lemma_added_last(
    before: Seq<ConfigLayer>,
    source: ConfigSource,
    added: Seq<ConfigLayer>,
    after: Seq<ConfigLayer>,
)
    requires
        layers_added(before, source, added, after),
        forall|i: int|
            0 <= i < before.len() ==> (#[trigger] before[i]).source.spec_rank()
                <= source.spec_rank(),
    ensures
        after == before + added,
{
    let p = choose|p: int| #[trigger]
        insert_point(before, source, p) && after == before.take(p) + added + before.skip(p);
    if p < before.len() {
        assert(before[p].source.spec_rank() > source.spec_rank());
    }
    assert(after =~= before + added);
}

/// Each layer comes from the layers before or from those added.
pub proof fn lemma_added_contains(
    before: Seq<ConfigLayer>,
    source: ConfigSource,
    added: Seq<ConfigLayer>,
    after: Seq<ConfigLayer>,
)
    requires
        layers_added(before, source, added, after),
    ensures
        after.len() == before.len() + added.len(),
        forall|i: int|
            0 <= i < after.len() ==> before.contains(#[trigger] after[i]) || added.contains(
                after[i],
            ),
{
    let p = choose|p: int| #[trigger]
        insert_point(before, source, p) && after == before.take(p) + added + before.skip(p);
    assert forall|i: int| 0 <= i < after.len() implies before.contains(#[trigger] after[i])
        || added.contains(after[i]) by {
        if i < p {
            assert(after[i] == before[i]);
        } else if i < p + added.len() {
            assert(after[i] == added[i - p]);
        } else {
            assert(after[i] == before[i - added.len()]);
        }
    }
}

proof fn lemma_without_source_joined(
    a: Seq<ConfigLayer>,
    b: Seq<ConfigLayer>,
    source: ConfigSource,
)
    ensures
        without_source(a + b, source) == without_source(a, source) + without_source(b, source),
    decreases b.len(),
{
    if b.len() == 0 {
        assert(a + b =~= a);
        assert(without_source(a, source) + without_source(b, source) =~= without_source(
            a,
            source,
        ));
    } else {
        assert((a + b).drop_last() =~= a + b.drop_last());
        lemma_without_source_joined(a, b.drop_last(), source);
        assert(without_source(a + b, source) =~= without_source(a, source) + without_source(
            b,
            source,
        ));
    }
}

/// Nothing is removed where no layer comes from the source, and everything where all
/// layers do.
proof fn lemma_without_source_uniform(layers: Seq<ConfigLayer>, source: ConfigSource)
    ensures
        (forall|i: int| 0 <= i < layers.len() ==> (#[trigger] layers[i]).source != source)
            ==> without_source(layers, source) == layers,
        (forall|i: int| 0 <= i < layers.len() ==> (#[trigger] layers[i]).source == source)
            ==> without_source(layers, source) == Seq::<ConfigLayer>::empty(),
    decreases layers.len(),
{
    if layers.len() > 0 {
        let front = layers.drop_last();
        lemma_without_source_uniform(front, source);
        assert(forall|i: int| 0 <= i < front.len() ==> #[trigger] front[i] == layers[i]);
        assert(layers[layers.len() - 1] == layers.last());
        assert(layers =~= front.push(layers.last()));
    } else {
        assert(without_source(layers, source) =~= layers);
    }
}

/// Replacing the layers of a source keeps all other layers, in their order.
pub proof fn law_other_layers_are_kept(
    before: Seq<ConfigLayer>,
    source: ConfigSource,
    added: Seq<ConfigLayer>,
    after: Seq<ConfigLayer>,
)
    requires
        layers_added(without_source(before, source), source, added, after),
        forall|i: int| 0 <= i < added.len() ==> (#[trigger] added[i]).source == source,
    ensures
        without_source(after, source) == without_source(before, source),
{
    let rest = without_source(before, source);
    let p = choose|p: int| #[trigger]
        insert_point(rest, source, p) && after == rest.take(p) + added + rest.skip(p);
    lemma_without_source(before, source);
    lemma_without_source_joined(rest.take(p) + added, rest.skip(p), source);
    lemma_without_source_joined(rest.take(p), added, source);
    assert(forall|i: int| 0 <= i < rest.take(p).len() ==> #[trigger] rest.take(p)[i] == rest[i]);
    assert(forall|i: int|
        0 <= i < rest.skip(p).len() ==> #[trigger] rest.skip(p)[i] == rest[i + p]);
    lemma_without_source_uniform(rest.take(p), source);
    lemma_without_source_uniform(rest.skip(p), source);
    lemma_without_source_uniform(added, source);
    assert(without_source(after, source) =~= rest);
}

/// Removing the layers of a source twice is the same as removing them once.
pub proof fn law_removing_is_idempotent(layers: Seq<ConfigLayer>, source: ConfigSource)
    ensures
        without_source(without_source(layers, source), source) == without_source(layers, source),
{
    lemma_without_source(layers, source);
    lemma_without_source_uniform(without_source(layers, source), source);
}

/// How many layers come from `source`.
pub open spec fn occurrences(layers: Seq<ConfigLayer>, source: ConfigSource) -> nat
    decreases layers.len(),
{
    if layers.len() == 0 {
        0
    } else {
        occurrences(layers.drop_last(), source) + if layers.last().source == source {
            1nat
        } else {
            0nat
        }
    }
}

/// The defaults and both kinds of environment variables make one layer each. The repo
/// and the command line make at most one layer each.
pub open spec fn once_each(layers: Seq<ConfigLayer>) -> bool {
    &&& occurrences(layers, ConfigSource::Default) == 1
    &&& occurrences(layers, ConfigSource::EnvBase) == 1
    &&& occurrences(layers, ConfigSource::EnvOverrides) == 1
    &&& occurrences(layers, ConfigSource::Repo) <= 1
    &&& occurrences(layers, ConfigSource::CommandArg) <= 1
}

proof fn lemma_occurrences_joined(a: Seq<ConfigLayer>, b: Seq<ConfigLayer>, source: ConfigSource)
    ensures
        occurrences(a + b, source) == occurrences(a, source) + occurrences(b, source),
    decreases b.len(),
{
    if b.len() == 0 {
        assert(a + b =~= a);
    } else {
        assert((a + b).drop_last() =~= a + b.drop_last());
        lemma_occurrences_joined(a, b.drop_last(), source);
    }
}

proof fn lemma_occurrences_without(
    layers: Seq<ConfigLayer>,
    removed: ConfigSource,
    source: ConfigSource,
)
    ensures
        occurrences(without_source(layers, removed), source) == if source == removed {
            0
        } else {
            occurrences(layers, source)
        },
    decreases layers.len(),
{
    if layers.len() > 0 {
        let rest = without_source(layers.drop_last(), removed);
        lemma_occurrences_without(layers.drop_last(), removed, source);
        if layers.last().source != removed {
            assert(rest.push(layers.last()).drop_last() =~= rest);
        }
    }
}

proof fn lemma_occurrences_uniform(
    layers: Seq<ConfigLayer>,
    common: ConfigSource,
    source: ConfigSource,
)
    requires
        forall|i: int| 0 <= i < layers.len() ==> (#[trigger] layers[i]).source == common,
    ensures
        occurrences(layers, source) == if source == common {
            layers.len()
        } else {
            0
        },
    decreases layers.len(),
{
    if layers.len() > 0 {
        let front = layers.drop_last();
        assert(forall|i: int| 0 <= i < front.len() ==> #[trigger] front[i] == layers[i]);
        lemma_occurrences_uniform(front, common, source);
        assert(layers[layers.len() - 1].source == common);
    }
}

/// Replacing the layers of a source changes nothing in how often other sources occur.
pub proof fn lemma_occurrences_replaced(
    before: Seq<ConfigLayer>,
    replaced: ConfigSource,
    added: Seq<ConfigLayer>,
    after: Seq<ConfigLayer>,
    source: ConfigSource,
)
    requires
        layers_added(without_source(before, replaced), replaced, added, after),
        forall|i: int| 0 <= i < added.len() ==> (#[trigger] added[i]).source == replaced,
    ensures
        occurrences(after, source) == if source == replaced {
            added.len()
        } else {
            occurrences(before, source)
        },
{
    let rest = without_source(before, replaced);
    let p = choose|p: int| #[trigger]
        insert_point(rest, replaced, p) && after == rest.take(p) + added + rest.skip(p);
    lemma_occurrences_joined(rest.take(p) + added, rest.skip(p), source);
    lemma_occurrences_joined(rest.take(p), added, source);
    lemma_occurrences_joined(rest.take(p), rest.skip(p), source);
    assert(rest.take(p) + rest.skip(p) =~= rest);
    lemma_occurrences_without(before, replaced, source);
    lemma_occurrences_uniform(added, replaced, source);
}

/// Removing the layers of a source changes nothing in how often other sources occur.
pub proof fn lemma_occurrences_removed(
    before: Seq<ConfigLayer>,
    removed: ConfigSource,
    source: ConfigSource,
)
    ensures
        occurrences(without_source(before, removed), source) == if source == removed {
            0
        } else {
            occurrences(before, source)
        },
{
    lemma_occurrences_without(before, removed, source);
}

/// Where layers stand by precedence, a layer from a source that overrides another stands
/// behind it: the defaults come first, then the base environment variables, the user
/// configs, the repo config, the override environment variables and the command line.
pub proof fn law_sources_stand_in_order(layers: Seq<ConfigLayer>, i: int, j: int)
    requires
        by_precedence(layers),
        0 <= i < layers.len(),
        0 <= j < layers.len(),
        match (layers[i].source, layers[j].source) {
            (ConfigSource::Default, ConfigSource::Default) => false,
            (ConfigSource::Default, _) => true,
            (ConfigSource::EnvBase, ConfigSource::User) => true,
            (ConfigSource::EnvBase, ConfigSource::Repo) => true,
            (ConfigSource::EnvBase, ConfigSource::EnvOverrides) => true,
            (ConfigSource::EnvBase, ConfigSource::CommandArg) => true,
            (ConfigSource::User, ConfigSource::Repo) => true,
            (ConfigSource::User, ConfigSource::EnvOverrides) => true,
            (ConfigSource::User, ConfigSource::CommandArg) => true,
            (ConfigSource::Repo, ConfigSource::EnvOverrides) => true,
            (ConfigSource::Repo, ConfigSource::CommandArg) => true,
            (ConfigSource::EnvOverrides, ConfigSource::CommandArg) => true,
            _ => false,
        },
    ensures
        i < j,
{
    if j < i {
        assert(layers[j].source.spec_rank() <= layers[i].source.spec_rank());
    }
}

/// Removing the layers of a source keeps all layers of other sources, in their order,
/// and no others.
pub proof fn law_removing_keeps_other_sources(layers: Seq<ConfigLayer>, source: ConfigSource)
    ensures
        without_source(layers, source) == layers.filter(|layer: ConfigLayer| layer.source != source),
    decreases layers.len(),
{
    reveal(Seq::filter);
    if layers.len() > 0 {
        law_removing_keeps_other_sources(layers.drop_last(), source);
    }
}

/// Filtering layers that stand in three parts is filtering the parts.
proof fn lemma_filter_parts(
    first: Seq<ConfigLayer>,
    second: Seq<ConfigLayer>,
    third: Seq<ConfigLayer>,
    keep: spec_fn(ConfigLayer) -> bool,
)
    ensures
        (first + second + third).filter(keep) == first.filter(keep) + second.filter(keep)
            + third.filter(keep),
        (first + third).filter(keep) == first.filter(keep) + third.filter(keep),
{
    Seq::filter_distributes_over_add(first + second, third, keep);
    Seq::filter_distributes_over_add(first, second, keep);
    Seq::filter_distributes_over_add(first, third, keep);
}

/// A filter that holds of all layers keeps them, and one that holds of none drops them.
proof fn lemma_filter_all_or_none(layers: Seq<ConfigLayer>, keep: spec_fn(ConfigLayer) -> bool)
    ensures
        (forall|i: int| 0 <= i < layers.len() ==> keep(#[trigger] layers[i])) ==> layers.filter(keep)
            == layers,
        (forall|i: int| 0 <= i < layers.len() ==> !keep(#[trigger] layers[i])) ==> layers.filter(
            keep,
        ) == Seq::<ConfigLayer>::empty(),
    decreases layers.len(),
{
    reveal(Seq::filter);
    if layers.len() > 0 {
        let front = layers.drop_last();
        lemma_filter_all_or_none(front, keep);
        assert(forall|i: int| 0 <= i < front.len() ==> #[trigger] front[i] == layers[i]);
        assert(layers[layers.len() - 1] == layers.last());
        assert(layers =~= front.push(layers.last()));
    }
}

/// Adding layers of a source to layers that stand by precedence puts them behind the
/// layers of that source that are there, in their order. All other layers stay, in their
/// order, and the layers stand by precedence again.
pub proof fn law_added_layers_come_last_of_their_source(
    before: Seq<ConfigLayer>,
    source: ConfigSource,
    added: Seq<ConfigLayer>,
    after: Seq<ConfigLayer>,
)
    requires
        by_precedence(before),
        layers_added(before, source, added, after),
        forall|i: int| 0 <= i < added.len() ==> (#[trigger] added[i]).source == source,
    ensures
        after.filter(|layer: ConfigLayer| layer.source == source) == before.filter(
            |layer: ConfigLayer| layer.source == source,
        ) + added,
        after.filter(|layer: ConfigLayer| layer.source != source) == before.filter(
            |layer: ConfigLayer| layer.source != source,
        ),
        by_precedence(after),
{
    let p = choose|p: int| #[trigger]
        insert_point(before, source, p) && after == before.take(p) + added + before.skip(p);
    let of_source = |layer: ConfigLayer| layer.source == source;
    let of_others = |layer: ConfigLayer| layer.source != source;
    let first = before.take(p);
    let third = before.skip(p);
    assert(first + third =~= before);
    lemma_filter_parts(first, added, third, of_source);
    lemma_filter_parts(first, added, third, of_others);
    lemma_filter_all_or_none(added, of_source);
    lemma_filter_all_or_none(added, of_others);
    assert forall|i: int| 0 <= i < third.len() implies !of_source(#[trigger] third[i]) by {
        assert(third[i] == before[p + i]);
    }
    lemma_filter_all_or_none(third, of_source);
    assert(after.filter(of_source) =~= before.filter(of_source) + added);
    assert(after.filter(of_others) =~= before.filter(of_others));
    lemma_added_by_precedence(before, source, added, after);
}

/// A copy of layers holds the same, from the same sources, in the same order.
pub proof fn law_copied_layers_are_the_same(a: Seq<ConfigLayer>, b: Seq<ConfigLayer>)
    requires
        same_layers(a, b),
    ensures
        a.len() == b.len(),
        forall|i: int|
            0 <= i < a.len() ==> (#[trigger] a[i]).source == b[i].source && config_tree(a[i].data)
                == config_tree(b[i].data),
{
}

} // verus!
