//! What the plugins of a service read of it, said of what each declares.

use vstd::prelude::*;

use super::registry::{read_as, reading_too, ReadModel, RegistryModel};
use crate::plan::entry_of;
use crate::schema::AttrDeclModel;

verus! {

/// Whether `plugin` is one of a service's and declares that attribute.
pub open spec fn declares(
    registry: RegistryModel,
    deployment: Seq<char>,
    kinds: Seq<Seq<char>>,
    plugin: Seq<char>,
    decl: AttrDeclModel,
) -> bool {
    ||| {
        &&& plugin == deployment
        &&& entry_of(registry.deployments, deployment) matches Some(decls)
        &&& decls.contains(decl)
    }
    ||| {
        &&& kinds.contains(plugin)
        &&& entry_of(registry.kinds, plugin) matches Some(decls)
        &&& decls.contains(decl)
    }
}

/// Whether no attribute is read twice.
pub open spec fn each_once(reads: Seq<ReadModel>) -> bool {
    forall|i: int, k: int|
        0 <= i < k < reads.len() ==> (#[trigger] reads[i]).decl.name != (
        #[trigger] reads[k]).decl.name
}

/// Whether an attribute is read as it was declared.
pub open spec fn is_read(reads: Seq<ReadModel>, decl: AttrDeclModel) -> bool {
    exists|k: int| 0 <= k < reads.len() && (#[trigger] reads[k]).decl == decl
}

/// Whether everything read was declared by the plugin it is said to be read by.
pub open spec fn all_declared(
    reads: Seq<ReadModel>,
    registry: RegistryModel,
    deployment: Seq<char>,
    kinds: Seq<Seq<char>>,
) -> bool {
    forall|k: int|
        0 <= k < reads.len() ==> declares(
            registry,
            deployment,
            kinds,
            (#[trigger] reads[k]).reader,
            reads[k].decl,
        )
}

/// Whether two of a service's plugins declare one attribute differently, and `why`
/// says which and what.
pub open spec fn at_odds(
    registry: RegistryModel,
    deployment: Seq<char>,
    kinds: Seq<Seq<char>>,
    why: Seq<char>,
) -> bool {
    exists|first: Seq<char>, one: AttrDeclModel, second: Seq<char>, other: AttrDeclModel|
        #![trigger declares(registry, deployment, kinds, first, one), declares(registry, deployment, kinds, second, other)]
        declares(registry, deployment, kinds, first, one) && declares(
            registry,
            deployment,
            kinds,
            second,
            other,
        ) && one.name == other.name && one != other && why == "`"@ + first + "` and `"@ + second
            + "` disagree about `"@ + one.name + "`"@
}

proof fn lemma_read_as(reads: Seq<ReadModel>, name: Seq<char>)
    ensures
        read_as(reads, name) matches Some(read) ==> reads.contains(read) && read.decl.name == name,
        read_as(reads, name) is None ==> forall|k: int|
            0 <= k < reads.len() ==> (#[trigger] reads[k]).decl.name != name,
    decreases reads.len(),
{
    if reads.len() > 0 {
        let rest = reads.skip(1);
        if reads[0].decl.name != name {
            lemma_read_as(rest, name);
            if let Some(read) = read_as(reads, name) {
                let k = choose|k: int| 0 <= k < rest.len() && rest[k] == read;
                assert(reads[k + 1] == read);
            } else {
                assert forall|k: int| 0 <= k < reads.len() implies (#[trigger] reads[k]).decl.name
                    != name by {
                    if k > 0 {
                        assert(rest[k - 1].decl.name != name);
                    }
                }
            }
        } else {
            assert(reads[0] == read_as(reads, name)->0);
        }
    }
}

proof fn lemma_reading_too(
    reads: Seq<ReadModel>,
    decls: Seq<AttrDeclModel>,
    reader: Seq<char>,
    registry: RegistryModel,
    deployment: Seq<char>,
    kinds: Seq<Seq<char>>,
)
    requires
        each_once(reads),
        all_declared(reads, registry, deployment, kinds),
        forall|i: int|
            0 <= i < decls.len() ==> declares(
                registry,
                deployment,
                kinds,
                reader,
                #[trigger] decls[i],
            ),
    ensures
        reading_too(reads, decls, reader) matches Ok(more) ==> {
            &&& each_once(more)
            &&& all_declared(more, registry, deployment, kinds)
            &&& forall|decl: AttrDeclModel| is_read(reads, decl) ==> #[trigger] is_read(more, decl)
            &&& forall|i: int| 0 <= i < decls.len() ==> is_read(more, #[trigger] decls[i])
        },
        reading_too(reads, decls, reader) matches Err(why) ==> at_odds(
            registry,
            deployment,
            kinds,
            why,
        ),
    decreases decls.len(),
{
    if decls.len() > 0 {
        let decl = decls[0];
        let rest = decls.skip(1);
        assert(declares(registry, deployment, kinds, reader, decl));
        assert forall|i: int| 0 <= i < rest.len() implies declares(
            registry,
            deployment,
            kinds,
            reader,
            #[trigger] rest[i],
        ) by {
            assert(rest[i] == decls[i + 1]);
        }
        lemma_read_as(reads, decl.name);
        match read_as(reads, decl.name) {
            None => {
                let more = reads.push(ReadModel { decl, reader });
                lemma_reading_too(more, rest, reader, registry, deployment, kinds);
                assert(more[reads.len() as int].decl == decl);
                assert(is_read(more, decl));
                assert forall|held: AttrDeclModel| is_read(reads, held) implies is_read(
                    more,
                    held,
                ) by {
                    let k = choose|k: int| 0 <= k < reads.len() && (#[trigger] reads[k]).decl == held;
                    assert(more[k].decl == held);
                }
                if let Ok(all) = reading_too(reads, decls, reader) {
                    assert(is_read(all, decl));
                    assert forall|i: int| 0 <= i < decls.len() implies is_read(
                        all,
                        #[trigger] decls[i],
                    ) by {
                        if i > 0 {
                            assert(rest[i - 1] == decls[i]);
                        }
                    }
                    assert forall|held: AttrDeclModel|
                        is_read(reads, held) implies #[trigger] is_read(all, held) by {
                        assert(is_read(more, held));
                    }
                }
            },
            Some(read) => {
                let k = choose|k: int| 0 <= k < reads.len() && reads[k] == read;
                assert(declares(registry, deployment, kinds, reads[k].reader, reads[k].decl));
                if read.decl == decl {
                    lemma_reading_too(reads, rest, reader, registry, deployment, kinds);
                    assert(is_read(reads, decl));
                    if let Ok(all) = reading_too(reads, decls, reader) {
                        assert(is_read(all, decl));
                        assert forall|i: int| 0 <= i < decls.len() implies is_read(
                            all,
                            #[trigger] decls[i],
                        ) by {
                            if i > 0 {
                                assert(rest[i - 1] == decls[i]);
                            }
                        }
                    }
                }
            },
        }
    }
}

proof fn lemma_speaking(
    reads: Seq<ReadModel>,
    some: Seq<Seq<char>>,
    registry: RegistryModel,
    deployment: Seq<char>,
    kinds: Seq<Seq<char>>,
)
    requires
        each_once(reads),
        all_declared(reads, registry, deployment, kinds),
        forall|i: int| 0 <= i < some.len() ==> kinds.contains(#[trigger] some[i]),
    ensures
        registry.speaking(reads, some) matches Ok(more) ==> {
            &&& each_once(more)
            &&& all_declared(more, registry, deployment, kinds)
            &&& forall|decl: AttrDeclModel| is_read(reads, decl) ==> #[trigger] is_read(more, decl)
            &&& forall|i: int, decl: AttrDeclModel|
                #![trigger is_read(more, decl), some[i]]
                0 <= i < some.len() && entry_of(registry.kinds, some[i]) is Some && entry_of(
                    registry.kinds,
                    some[i],
                )->0.contains(decl) ==> is_read(more, decl)
        },
        registry.speaking(reads, some) matches Err(why) ==> at_odds(
            registry,
            deployment,
            kinds,
            why,
        ),
    decreases some.len(),
{
    if some.len() > 0 {
        let rest = some.skip(1);
        assert(kinds.contains(some[0]));
        assert forall|i: int| 0 <= i < rest.len() implies kinds.contains(#[trigger] rest[i]) by {
            assert(rest[i] == some[i + 1]);
        }
        match entry_of(registry.kinds, some[0]) {
            None => {
                lemma_speaking(reads, rest, registry, deployment, kinds);
                if let Ok(more) = registry.speaking(reads, some) {
                    lemma_spoken(more, some, registry);
                }
            },
            Some(decls) => {
                lemma_reading_too(reads, decls, some[0], registry, deployment, kinds);
                if let Ok(between) = reading_too(reads, decls, some[0]) {
                    lemma_speaking(between, rest, registry, deployment, kinds);
                    if let Ok(more) = registry.speaking(reads, some) {
                        assert forall|decl: AttrDeclModel| decls.contains(
                            decl,
                        ) implies #[trigger] is_read(more, decl) by {
                            let i = choose|i: int| 0 <= i < decls.len() && decls[i] == decl;
                            assert(is_read(between, decls[i]));
                        }
                        assert forall|decl: AttrDeclModel|
                            is_read(reads, decl) implies #[trigger] is_read(more, decl) by {
                            assert(is_read(between, decl));
                        }
                        lemma_spoken(more, some, registry);
                    }
                }
            },
        }
    }
}

/// Where what the first kind declares is read, and what the rest do, all of it is.
proof fn lemma_spoken(more: Seq<ReadModel>, some: Seq<Seq<char>>, registry: RegistryModel)
    requires
        some.len() > 0,
        entry_of(registry.kinds, some[0]) matches Some(decls) ==> forall|decl: AttrDeclModel|
            decls.contains(decl) ==> #[trigger] is_read(more, decl),
        forall|i: int, decl: AttrDeclModel|
            #![trigger is_read(more, decl), some.skip(1)[i]]
            0 <= i < some.skip(1).len() && entry_of(registry.kinds, some.skip(1)[i]) is Some
                && entry_of(registry.kinds, some.skip(1)[i])->0.contains(decl) ==> is_read(more, decl),
    ensures
        forall|i: int, decl: AttrDeclModel|
            #![trigger is_read(more, decl), some[i]]
            0 <= i < some.len() && entry_of(registry.kinds, some[i]) is Some && entry_of(
                registry.kinds,
                some[i],
            )->0.contains(decl) ==> is_read(more, decl),
{
    assert forall|i: int, decl: AttrDeclModel|
        #![trigger is_read(more, decl), some[i]]
        0 <= i < some.len() && entry_of(registry.kinds, some[i]) is Some && entry_of(
            registry.kinds,
            some[i],
        )->0.contains(decl) implies is_read(more, decl) by {
        if i > 0 {
            assert(some.skip(1)[i - 1] == some[i]);
        }
    }
}

/// A service is read for what its plugins declare, all of it, nothing else and
/// each attribute once, exactly where its deployment is known and no two of its
/// plugins declare one attribute differently. Otherwise it is said which two do,
/// and over what.
pub proof fn lemma_read_together(
    registry: RegistryModel,
    deployment: Seq<char>,
    kinds: Seq<Seq<char>>,
)
    ensures
        registry.service_schema(deployment, kinds) matches Ok(reads) ==> {
            &&& entry_of(registry.deployments, deployment) is Some
            &&& each_once(reads)
            &&& all_declared(reads, registry, deployment, kinds)
            &&& forall|plugin: Seq<char>, decl: AttrDeclModel| #[trigger]
                declares(registry, deployment, kinds, plugin, decl) ==> is_read(reads, decl)
        },
        registry.service_schema(deployment, kinds) matches Err(why) ==> if entry_of(
            registry.deployments,
            deployment,
        ) is None {
            why == "unknown deployment plugin `"@ + deployment + "`"@
        } else {
            at_odds(registry, deployment, kinds, why)
        },
{
    if let Some(decls) = entry_of(registry.deployments, deployment) {
        let none = Seq::<ReadModel>::empty();
        assert forall|i: int| 0 <= i < decls.len() implies declares(
            registry,
            deployment,
            kinds,
            deployment,
            #[trigger] decls[i],
        ) by {
            assert(decls.contains(decls[i]));
        }
        lemma_reading_too(none, decls, deployment, registry, deployment, kinds);
        if let Ok(reads) = reading_too(none, decls, deployment) {
            lemma_speaking(reads, kinds, registry, deployment, kinds);
            if let Ok(all) = registry.service_schema(deployment, kinds) {
                assert forall|plugin: Seq<char>, decl: AttrDeclModel| #[trigger]
                    declares(registry, deployment, kinds, plugin, decl) implies is_read(
                    all,
                    decl,
                ) by {
                    if plugin == deployment && decls.contains(decl) {
                        let i = choose|i: int| 0 <= i < decls.len() && decls[i] == decl;
                        assert(is_read(reads, decls[i]));
                        assert(is_read(all, decl));
                    } else {
                        let i = choose|i: int| 0 <= i < kinds.len() && kinds[i] == plugin;
                        assert(kinds[i] == plugin);
                    }
                }
            }
        }
    }
}

} // verus!
