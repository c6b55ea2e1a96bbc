use vstd::prelude::*;
use crate::entity::{DirEntry, Entity, IoError, Metadata};

verus! {

/// The error of the first failed outcome at or after position `i`, if any.
pub open spec fn first_failure_from<T>(s: Seq<Result<T, IoError>>, i: int) -> Option<IoError>
    decreases s.len() - i,
{
    if i < 0 || i >= s.len() {
        None
    } else {
        match s[i] {
            Err(e) => Some(e),
            Ok(_) => first_failure_from(s, i + 1),
        }
    }
}

/// The error of the first failed outcome in `s`, if any.
pub open spec fn first_failure<T>(s: Seq<Result<T, IoError>>) -> Option<IoError> {
    first_failure_from(s, 0)
}

pub open spec fn entity_of(d: DirEntry, m: Metadata) -> Entity {
    Entity { file_name: d.file_name, path: d.path, metadata: m }
}

/// The entities of a listing whose metadata lookups all succeeded.
pub open spec fn entities_of(es: Seq<DirEntry>, ms: Seq<Result<Metadata, IoError>>) -> Seq<Entity> {
    Seq::new(es.len(), |k: int| entity_of(es[k], ms[k]->Ok_0))
}

pub open spec fn listing_view(l: Result<Vec<DirEntry>, IoError>) -> Result<Seq<DirEntry>, IoError> {
    match l {
        Ok(v) => Ok(v@),
        Err(e) => Err(e),
    }
}

pub open spec fn result_view(r: Result<Vec<Entity>, IoError>) -> Result<Seq<Entity>, IoError> {
    match r {
        Ok(v) => Ok(v@),
        Err(e) => Err(e),
    }
}

pub open spec fn results_view(s: Seq<Result<Vec<Entity>, IoError>>) -> Seq<Result<Seq<Entity>, IoError>> {
    s.map_values(|r: Result<Vec<Entity>, IoError>| result_view(r))
}

/// One directory read: a failed listing fails; otherwise the first failed
/// metadata lookup fails the whole read; otherwise each listed entry becomes
/// an entity with its own metadata, in listing order.
pub open spec fn read_dir_spec(
    listing: Result<Seq<DirEntry>, IoError>,
    ms: Seq<Result<Metadata, IoError>>,
) -> Result<Seq<Entity>, IoError> {
    match listing {
        Err(e) => Err(e),
        Ok(es) => match first_failure(ms) {
            Some(e) => Err(e),
            None => Ok(entities_of(es, ms)),
        },
    }
}

/// The paths of the directories among `s`, in order.
pub open spec fn dir_paths(s: Seq<Entity>) -> Seq<String>
    decreases s.len(),
{
    if s.len() == 0 {
        Seq::empty()
    } else {
        let p = dir_paths(s.drop_last());
        if s.last().metadata.kind is Dir {
            p.push(s.last().path)
        } else {
            p
        }
    }
}

/// The concatenation of the successful outcomes of `s`, in order.
pub open spec fn flatten(s: Seq<Result<Seq<Entity>, IoError>>) -> Seq<Entity>
    decreases s.len(),
{
    if s.len() == 0 {
        Seq::empty()
    } else {
        let tail = match s.last() {
            Ok(v) => v,
            Err(_) => Seq::empty(),
        };
        flatten(s.drop_last()) + tail
    }
}

/// One step of the recursive walk: a failed read of the directory itself
/// fails; otherwise the first failed subdirectory walk fails the whole step;
/// otherwise the direct children come first, followed by every
/// subdirectory's entities.
pub open spec fn walk_spec(
    children: Result<Seq<Entity>, IoError>,
    subs: Seq<Result<Seq<Entity>, IoError>>,
) -> Result<Seq<Entity>, IoError> {
    match children {
        Err(e) => Err(e),
        Ok(c) => match first_failure(subs) {
            Some(e) => Err(e),
            None => Ok(c + flatten(subs)),
        },
    }
}

/// Reads a directory tree from the outcomes of the filesystem calls that a
/// caller made on its behalf.
pub struct Fs;

impl Fs {
    /// Combines one directory's listing with the metadata fetched for each
    /// listed entry, position by position. All or nothing: a failed listing,
    /// or any failed metadata lookup, fails the whole read.
    pub fn read_dir(listing: Result<Vec<DirEntry>, IoError>, metadata: Vec<Result<Metadata, IoError>>) -> (r: Result<Vec<Entity>, IoError>)
        requires
            listing is Ok ==> metadata@.len() == listing->Ok_0@.len(),
        ensures
            result_view(r) == read_dir_spec(listing_view(listing), metadata@),
    {
        let entries = match listing {
            Err(e) => return Err(e),
            Ok(es) => es,
        };
        let mut out: Vec<Entity> = Vec::new();
        let mut i: usize = 0;
        while i < metadata.len()
            invariant
                0 <= i <= metadata@.len(),
                entries@.len() == metadata@.len(),
                listing_view(listing) == Ok::<Seq<DirEntry>, IoError>(entries@),
                first_failure(metadata@) == first_failure_from(metadata@, i as int),
                forall|k: int| 0 <= k < i ==> (#[trigger] metadata@[k]) is Ok,
                out@ =~= entities_of(entries@, metadata@).subrange(0, i as int),
            decreases metadata@.len() - i,
        {
            match &metadata[i] {
                Err(e) => {
                    assert(first_failure_from(metadata@, i as int) == Some(*e));
                    return Err(IoError::new(e.kind, e.path.clone()));
                },
                Ok(m) => {
                    let entry = &entries[i];
                    out.push(Entity::new(entry.file_name.clone(), entry.path.clone(), *m));
                },
            }
            i = i + 1;
        }
        assert(out@ =~= entities_of(entries@, metadata@));
        Ok(out)
    }

    /// The paths of the subdirectories among `entities`, in order: the
    /// directories that the walk descends into.
    pub fn sub_dirs(entities: &Vec<Entity>) -> (r: Vec<String>)
        ensures
            r@ == dir_paths(entities@),
    {
        let mut out: Vec<String> = Vec::new();
        let mut i: usize = 0;
        while i < entities.len()
            invariant
                0 <= i <= entities@.len(),
                out@ == dir_paths(entities@.subrange(0, i as int)),
            decreases entities@.len() - i,
        {
            assert(entities@.subrange(0, i + 1).drop_last() =~= entities@.subrange(0, i as int));
            if entities[i].metadata.is_dir() {
                out.push(entities[i].path.clone());
            }
            i = i + 1;
        }
        assert(entities@.subrange(0, entities@.len() as int) =~= entities@);
        out
    }

    /// Merges a directory's own read with the walks of its subdirectories,
    /// one per entry of `sub_dirs`, in that order. All or nothing: a failed
    /// read of the directory, or any failed subdirectory walk, fails the
    /// whole step; otherwise the direct children come first, followed by
    /// each subdirectory's entities.
    pub fn read_dir_recursive(children: Result<Vec<Entity>, IoError>, sub_results: Vec<Result<Vec<Entity>, IoError>>) -> (r: Result<Vec<Entity>, IoError>)
        requires
            children is Ok ==> sub_results@.len() == dir_paths(children->Ok_0@).len(),
        ensures
            result_view(r) == walk_spec(result_view(children), results_view(sub_results@)),
    {
        let mut entities = match children {
            Err(e) => return Err(e),
            Ok(c) => c,
        };
        let ghost c0 = entities@;
        let mut subs = sub_results;
        let ghost orig = subs@;
        let mut i: usize = 0;
        while i < subs.len()
            invariant
                0 <= i <= subs@.len(),
                subs@.len() == orig.len(),
                orig == sub_results@,
                result_view(children) == Ok::<Seq<Entity>, IoError>(c0),
                forall|k: int| i <= k < orig.len() ==> (#[trigger] subs@[k]) == orig[k],
                first_failure(results_view(orig)) == first_failure_from(results_view(orig), i as int),
                forall|k: int| 0 <= k < i ==> (#[trigger] orig[k]) is Ok,
                entities@ == c0 + flatten(results_view(orig.subrange(0, i as int))),
            decreases subs@.len() - i,
        {
            let mut taken: Result<Vec<Entity>, IoError> = Ok(Vec::new());
            subs.set_and_swap(i, &mut taken);
            assert(results_view(orig)[i as int] == result_view(orig[i as int]));
            assert(results_view(orig.subrange(0, i + 1)).drop_last() =~= results_view(orig.subrange(0, i as int)));
            match taken {
                Ok(mut v) => {
                    entities.append(&mut v);
                },
                Err(e) => {
                    assert(first_failure_from(results_view(orig), i as int) == Some(e));
                    return Err(e);
                },
            }
            assert(entities@ =~= c0 + flatten(results_view(orig.subrange(0, i + 1))));
            i = i + 1;
        }
        assert(orig.subrange(0, orig.len() as int) =~= orig);
        Ok(entities)
    }
}

} // verus!
