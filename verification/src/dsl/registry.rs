//! The plugins a file is checked against: what each accepts, and what each
//! answers.

use vstd::prelude::*;

use vstd::string::*;

use crate::plan::entry_of;
use crate::schema::{AttrDecl, AttrDeclModel, AttrSchema, OpSig, OpSigModel, ValueType};
use crate::text::same;

verus! {

/// The plugins in this build, by name.
pub struct Registry {
    /// What each deployment plugin reads of a service.
    pub deployments: Vec<(String, AttrSchema)>,
    /// What each kind a service can speak reads of it besides.
    pub kinds: Vec<(String, AttrSchema)>,
    /// What each driver does.
    pub drivers: Vec<(String, Vec<OpSig>)>,
    /// What each observer answers.
    pub observers: Vec<(String, Vec<OpSig>)>,
}

/// What a [`Registry`] holds.
#[verifier::ext_equal]
pub struct RegistryModel {
    pub deployments: Seq<(Seq<char>, Seq<AttrDeclModel>)>,
    pub kinds: Seq<(Seq<char>, Seq<AttrDeclModel>)>,
    pub drivers: Seq<(Seq<char>, Seq<OpSigModel>)>,
    pub observers: Seq<(Seq<char>, Seq<OpSigModel>)>,
}

impl DeepView for Registry {
    type V = RegistryModel;

    open spec fn deep_view(&self) -> RegistryModel {
        RegistryModel {
            deployments: self.deployments.deep_view(),
            kinds: self.kinds.deep_view(),
            drivers: self.drivers.deep_view(),
            observers: self.observers.deep_view(),
        }
    }
}

/// The names entries stand under, in order.
pub open spec fn names_of<T>(entries: Seq<(Seq<char>, T)>) -> Seq<Seq<char>> {
    Seq::new(entries.len(), |i: int| entries[i].0)
}

/// What stands first under a name.
pub fn find_entry<'a, T: DeepView>(entries: &'a Vec<(String, T)>, name: &str) -> (r: Option<&'a T>)
    ensures
        r.deep_view() == entry_of(entries.deep_view(), name@),
{
    let ghost model = entries.deep_view();
    assert(model.skip(0) =~= model);
    for i in 0..entries.len()
        invariant
            model == entries.deep_view(),
            entry_of(model, name@) == entry_of(model.skip(i as int), name@),
    {
        proof {
            assert(model[i as int] == entries@[i as int].deep_view());
            assert(model.skip(i as int)[0] == model[i as int]);
            assert(model.skip(i as int).skip(1) =~= model.skip(i + 1));
        }
        if same(entries[i].0.as_str(), name) {
            return Some(&entries[i].1);
        }
    }
    None
}

/// The names entries stand under, in order.
pub fn entry_names<T: DeepView>(entries: &Vec<(String, T)>) -> (r: Vec<String>)
    ensures
        r.deep_view() == names_of(entries.deep_view()),
{
    let mut out: Vec<String> = Vec::new();
    for i in 0..entries.len()
        invariant
            out@.len() == i,
            forall|j: int| 0 <= j < i ==> (#[trigger] out@[j])@ == entries@[j].0@,
    {
        out.push(entries[i].0.clone());
    }
    assert(out.deep_view() =~= names_of(entries.deep_view()));
    out
}

/// An attribute of a service, and the plugin that reads it.
pub struct Read {
    pub decl: AttrDecl,
    pub reader: String,
}

/// What a [`Read`] is.
#[verifier::ext_equal]
pub struct ReadModel {
    pub decl: AttrDeclModel,
    pub reader: Seq<char>,
}

impl DeepView for Read {
    type V = ReadModel;

    open spec fn deep_view(&self) -> ReadModel {
        ReadModel { decl: self.decl.deep_view(), reader: self.reader@ }
    }
}

/// The attribute of that name, and the plugin that reads it.
pub open spec fn read_as(reads: Seq<ReadModel>, name: Seq<char>) -> Option<ReadModel>
    decreases reads.len(),
{
    if reads.len() == 0 {
        None
    } else if reads[0].decl.name == name {
        Some(reads[0])
    } else {
        read_as(reads.skip(1), name)
    }
}

/// What the plugins of a service read of it.
pub struct ServiceSchema {
    pub reads: Vec<Read>,
}

impl DeepView for ServiceSchema {
    type V = Seq<ReadModel>;

    open spec fn deep_view(&self) -> Seq<ReadModel> {
        self.reads.deep_view()
    }
}

/// That two plugins do not read an attribute alike.
pub open spec fn disagreement(
    first: Seq<char>,
    second: Seq<char>,
    name: Seq<char>,
) -> Seq<char> {
    "`"@ + first + "` and `"@ + second + "` disagree about `"@ + name + "`"@
}

/// What is read of a service once `reader` reads those attributes too. Two
/// plugins may read one attribute only where they declare it alike.
pub open spec fn reading_too(
    reads: Seq<ReadModel>,
    decls: Seq<AttrDeclModel>,
    reader: Seq<char>,
) -> Result<Seq<ReadModel>, Seq<char>>
    decreases decls.len(),
{
    if decls.len() == 0 {
        Ok(reads)
    } else {
        let decl = decls[0];
        match read_as(reads, decl.name) {
            None => reading_too(reads.push(ReadModel { decl, reader }), decls.skip(1), reader),
            Some(read) => if read.decl == decl {
                reading_too(reads, decls.skip(1), reader)
            } else {
                Err(disagreement(read.reader, reader, decl.name))
            },
        }
    }
}

impl RegistryModel {
    /// What is read of a service once the kinds it speaks read it too.
    pub open spec fn speaking(self, reads: Seq<ReadModel>, kinds: Seq<Seq<char>>) -> Result<
        Seq<ReadModel>,
        Seq<char>,
    >
        decreases kinds.len(),
    {
        if kinds.len() == 0 {
            Ok(reads)
        } else {
            match entry_of(self.kinds, kinds[0]) {
                None => self.speaking(reads, kinds.skip(1)),
                Some(decls) => match reading_too(reads, decls, kinds[0]) {
                    Ok(more) => self.speaking(more, kinds.skip(1)),
                    Err(why) => Err(why),
                },
            }
        }
    }

    /// What the plugins of a service read of it, or why they cannot read it
    /// together.
    pub open spec fn service_schema(self, deployment: Seq<char>, kinds: Seq<Seq<char>>) -> Result<
        Seq<ReadModel>,
        Seq<char>,
    > {
        match entry_of(self.deployments, deployment) {
            None => Err("unknown deployment plugin `"@ + deployment + "`"@),
            Some(decls) => match reading_too(Seq::empty(), decls, deployment) {
                Ok(reads) => self.speaking(reads, kinds),
                Err(why) => Err(why),
            },
        }
    }
}

/// Whether two types are one.
pub fn same_type(a: &ValueType, b: &ValueType) -> (r: bool)
    ensures
        r == (*a == *b),
    decreases a,
{
    match (a, b) {
        (ValueType::Str, ValueType::Str) => true,
        (ValueType::Int, ValueType::Int) => true,
        (ValueType::Bool, ValueType::Bool) => true,
        (ValueType::Duration, ValueType::Duration) => true,
        (ValueType::Scalar, ValueType::Scalar) => true,
        (ValueType::List(a), ValueType::List(b)) => same_type(&**a, &**b),
        (ValueType::MapOf(a), ValueType::MapOf(b)) => same_type(&**a, &**b),
        (ValueType::Mapping, ValueType::Mapping) => true,
        (ValueType::ServiceRef, ValueType::ServiceRef) => true,
        _ => false,
    }
}

impl ServiceSchema {
    /// The attribute of that name, and the plugin that reads it.
    pub fn attr(&self, name: &str) -> (r: Option<&Read>)
        ensures
            r.deep_view() == read_as(self.deep_view(), name@),
    {
        let ghost model = self.reads.deep_view();
        assert(model.skip(0) =~= model);
        for i in 0..self.reads.len()
            invariant
                model == self.reads.deep_view(),
                read_as(model, name@) == read_as(model.skip(i as int), name@),
        {
            proof {
                assert(model[i as int] == self.reads@[i as int].deep_view());
                assert(model.skip(i as int)[0] == model[i as int]);
                assert(model.skip(i as int).skip(1) =~= model.skip(i + 1));
            }
            if same(self.reads[i].decl.name.as_str(), name) {
                return Some(&self.reads[i]);
            }
        }
        None
    }

    /// Reads those attributes too, or says which of them cannot be.
    fn extend(&mut self, decls: &AttrSchema, reader: &str) -> (r: Result<(), String>)
        ensures
            match r {
                Ok(_) => reading_too(old(self).deep_view(), decls.deep_view(), reader@) == Ok::<
                    Seq<ReadModel>,
                    Seq<char>,
                >(final(self).deep_view()),
                Err(why) => reading_too(old(self).deep_view(), decls.deep_view(), reader@)
                    == Err::<Seq<ReadModel>, Seq<char>>(why@),
            },
    {
        let ghost model = decls.attrs.deep_view();
        let ghost goal = reading_too(self.deep_view(), model, reader@);
        assert(model.skip(0) =~= model);
        for i in 0..decls.attrs.len()
            invariant
                model == decls.attrs.deep_view(),
                model == decls.deep_view(),
                goal == reading_too(old(self).deep_view(), model, reader@),
                reading_too(self.deep_view(), model.skip(i as int), reader@) == goal,
        {
            let decl = &decls.attrs[i];
            proof {
                assert(model[i as int] == decl.deep_view());
                assert(model.skip(i as int)[0] == model[i as int]);
                assert(model.skip(i as int).skip(1) =~= model.skip(i + 1));
            }
            let known = match self.attr(decl.name.as_str()) {
                Some(read) => {
                    let alike = read.decl.required == decl.required && same_type(
                        &read.decl.ty,
                        &decl.ty,
                    ) && read.decl.name == decl.name;
                    if !alike {
                        let mut why = "`".to_owned();
                        why.append(read.reader.as_str());
                        why.append("` and `");
                        why.append(reader);
                        why.append("` disagree about `");
                        why.append(decl.name.as_str());
                        why.append("`");
                        return Err(why);
                    }
                    true
                },
                None => false,
            };
            if !known {
                let ghost before = self.reads.deep_view();
                let read = Read { decl: decl.clone(), reader: reader.to_owned() };
                let ghost added = read.deep_view();
                self.reads.push(read);
                assert(self.reads.deep_view() =~= before.push(added));
            }
        }
        assert(model.skip(model.len() as int) =~= Seq::empty());
        Ok(())
    }
}

impl Registry {
    /// What a deployment plugin reads of a service, if there is that plugin.
    pub fn deployment(&self, name: &str) -> (r: Option<&AttrSchema>)
        ensures
            r.deep_view() == entry_of(self.deep_view().deployments, name@),
    {
        find_entry(&self.deployments, name)
    }

    /// The deployment plugins, by name.
    pub fn deployment_names(&self) -> (r: Vec<String>)
        ensures
            r.deep_view() == names_of(self.deep_view().deployments),
    {
        entry_names(&self.deployments)
    }

    /// What a driver does, if there is that driver.
    pub fn driver(&self, name: &str) -> (r: Option<&Vec<OpSig>>)
        ensures
            r.deep_view() == entry_of(self.deep_view().drivers, name@),
    {
        find_entry(&self.drivers, name)
    }

    /// The drivers, by name.
    pub fn driver_names(&self) -> (r: Vec<String>)
        ensures
            r.deep_view() == names_of(self.deep_view().drivers),
    {
        entry_names(&self.drivers)
    }

    /// What an observer answers, if there is that observer.
    pub fn observer(&self, name: &str) -> (r: Option<&Vec<OpSig>>)
        ensures
            r.deep_view() == entry_of(self.deep_view().observers, name@),
    {
        find_entry(&self.observers, name)
    }

    /// What the plugins of a service read of it, or why they cannot read it
    /// together.
    pub fn service_schema(&self, deployment: &str, kinds: &Vec<String>) -> (r: Result<
        ServiceSchema,
        String,
    >)
        ensures
            match r {
                Ok(schema) => self.deep_view().service_schema(deployment@, kinds.deep_view()) == Ok::<
                    Seq<ReadModel>,
                    Seq<char>,
                >(schema.deep_view()),
                Err(why) => self.deep_view().service_schema(deployment@, kinds.deep_view())
                    == Err::<Seq<ReadModel>, Seq<char>>(why@),
            },
    {
        let mut schema = ServiceSchema { reads: Vec::new() };
        assert(schema.reads.deep_view() =~= Seq::empty());
        match self.deployment(deployment) {
            None => {
                let mut why = "unknown deployment plugin `".to_owned();
                why.append(deployment);
                why.append("`");
                return Err(why);
            },
            Some(decls) => {
                if let Err(why) = schema.extend(decls, deployment) {
                    return Err(why);
                }
            },
        }
        let ghost me = self.deep_view();
        let ghost model = kinds.deep_view();
        let ghost goal = me.speaking(schema.deep_view(), model);
        assert(model.skip(0) =~= model);
        for i in 0..kinds.len()
            invariant
                me == self.deep_view(),
                model == kinds.deep_view(),
                goal == me.service_schema(deployment@, model),
                me.speaking(schema.deep_view(), model.skip(i as int)) == goal,
        {
            proof {
                assert(model[i as int] == kinds@[i as int]@);
                assert(model.skip(i as int)[0] == model[i as int]);
                assert(model.skip(i as int).skip(1) =~= model.skip(i + 1));
            }
            if let Some(decls) = find_entry(&self.kinds, kinds[i].as_str()) {
                if let Err(why) = schema.extend(decls, kinds[i].as_str()) {
                    return Err(why);
                }
            }
        }
        assert(model.skip(model.len() as int) =~= Seq::empty());
        Ok(schema)
    }
}

} // verus!
