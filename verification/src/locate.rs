//! Finding the file that holds the Lua runtime of a process.
//!
//! Where no file is asked for, these are tried, and the first one that can be profiled
//! is taken:
//!
//! - every executable mapping whose path speaks of Lua;
//! - the main executable, which Lua may be linked into;
//! - every other executable mapping of a file.

use crate::error::LuaError;
use crate::maps::{
    all_exec_maps, distinct, executable_files, lines_of, lua_named, lua_named_maps, views,
};
use crate::object_file::object_in;
use crate::path::{copy_bytes, part_views, same_components, same_path, strip_deleted, without_deleted};
use crate::syms::{accepted, is_outcome, module_from_path, scanned, LuaModule, LuaOffsets, LuaVersion};
use vstd::prelude::*;
use vstd::utf8::encode_utf8;

verus! {

/// How the files of a process are read.
pub struct ProcessFiles<R, X, F> {
    /// Reads the list of mappings.
    pub read_maps: R,
    /// Finds the path of the main executable, where that is possible.
    pub read_exe: X,
    /// Reads the file at a path.
    pub read_file: F,
}

/// The bytes of a file that was read.
pub open spec fn file_bytes(file: Result<Vec<u8>, String>) -> Option<Seq<u8>> {
    match file {
        Ok(bytes) => Some(bytes@),
        Err(_) => None,
    }
}

/// The version and the offsets of the runtime that a file with these bytes holds, if
/// it can be profiled.
pub open spec fn loaded(
    path: Seq<u8>,
    bytes: Option<Seq<u8>>,
    forced_version: Option<LuaVersion>,
) -> Option<(LuaVersion, LuaOffsets)> {
    match bytes {
        Some(bytes) => match object_in(bytes) {
            Some((symbols, segments)) => accepted(
                scanned(symbols, segments),
                path,
                forced_version,
            ),
            None => None,
        },
        None => None,
    }
}

/// A path with the same components is among those that were tried.
pub open spec fn already_tried(tried: Seq<Seq<u8>>, path: Seq<u8>) -> bool {
    exists|i: int| 0 <= i < tried.len() && same_components(#[trigger] tried[i], path)
}

/// The paths that have been tried once all of `candidates` have been: each that was
/// not tried before.
pub open spec fn tried_after(tried: Seq<Seq<u8>>, candidates: Seq<Seq<u8>>) -> Seq<Seq<u8>>
    decreases candidates.len(),
{
    if candidates.len() == 0 {
        tried
    } else {
        let rest = tried_after(tried, candidates.drop_last());
        if already_tried(rest, candidates.last()) {
            rest
        } else {
            rest.push(candidates.last())
        }
    }
}

/// The paths of texts.
pub open spec fn text_paths(texts: Seq<Seq<char>>) -> Seq<Seq<u8>> {
    texts.map_values(|t: Seq<char>| encode_utf8(t))
}

/// The files that are tried first, by the list of mappings.
pub open spec fn named_candidates(maps: Seq<char>) -> Seq<Seq<u8>> {
    text_paths(distinct(lua_named(executable_files(lines_of(maps)))))
}

/// The files that are tried last, by the list of mappings.
pub open spec fn mapped_candidates(maps: Seq<char>) -> Seq<Seq<u8>> {
    text_paths(distinct(executable_files(lines_of(maps))))
}

/// What was found where: the path, the version and the offsets.
pub open spec fn module_view(m: LuaModule) -> (Seq<u8>, LuaVersion, LuaOffsets) {
    (m.path@, m.version, m.offsets)
}

fn paths_of(texts: Vec<String>) -> (r: Vec<Vec<u8>>)
    ensures
        part_views(r@) == text_paths(views(texts@)),
{
    let mut r: Vec<Vec<u8>> = Vec::new();
    for i in 0..texts.len()
        invariant
            r@.len() == i,
            forall|j: int| 0 <= j < i ==> (#[trigger] r@[j])@ == encode_utf8(texts@[j]@),
    {
        r.push(copy_bytes(texts[i].as_str().as_bytes()));
    }
    assert(part_views(r@) =~= text_paths(views(texts@)));
    r
}

fn is_tried(tried: &Vec<Vec<u8>>, path: &[u8]) -> (r: bool)
    ensures
        r == already_tried(part_views(tried@), path@),
{
    for i in 0..tried.len()
        invariant
            forall|j: int|
                0 <= j < i ==> !same_components(#[trigger] part_views(tried@)[j], path@),
    {
        if same_path(tried[i].as_slice(), path) {
            assert(same_components(part_views(tried@)[i as int], path@));
            return true;
        }
    }
    false
}

impl<
    R: Fn() -> Result<String, String>,
    X: Fn() -> Option<Vec<u8>>,
    F: Fn(&[u8]) -> Result<Vec<u8>, String>,
> ProcessFiles<R, X, F> {
    /// Everything can be asked for.
    pub open spec fn can_read(&self) -> bool {
        &&& call_requires(self.read_maps, ())
        &&& call_requires(self.read_exe, ())
        &&& forall|path: &[u8]| #[trigger] call_requires(self.read_file, (path,))
    }

    /// Reading the file at `path` may give `file`.
    pub open spec fn may_read(&self, path: Seq<u8>, file: Result<Vec<u8>, String>) -> bool {
        exists|arg: &[u8]| arg@ == path && #[trigger] call_ensures(self.read_file, (arg,), file)
    }

    /// The file at `path` may give `r`.
    pub open spec fn may_load(
        &self,
        path: Seq<u8>,
        forced_version: Option<LuaVersion>,
        r: Result<LuaModule, LuaError>,
    ) -> bool {
        exists|file: Result<Vec<u8>, String>| #[trigger]
            self.may_read(path, file) && is_outcome(path, file, forced_version, r)
    }

    /// The file at `path` may turn out to be one that cannot be profiled.
    pub open spec fn may_fail(&self, path: Seq<u8>, forced_version: Option<LuaVersion>) -> bool {
        exists|file: Result<Vec<u8>, String>| #[trigger]
            self.may_read(path, file) && loaded(path, file_bytes(file), forced_version) is None
    }

    /// The file at the path of `found` may turn out to be that runtime.
    pub open spec fn may_give(
        &self,
        found: (Seq<u8>, LuaVersion, LuaOffsets),
        forced_version: Option<LuaVersion>,
    ) -> bool {
        exists|file: Result<Vec<u8>, String>| #[trigger]
            self.may_read(found.0, file) && loaded(found.0, file_bytes(file), forced_version)
                == Some((found.1, found.2))
    }

    /// Trying `candidates` one by one, but not those that were tried before, may end
    /// with `tried_now` as what was tried in vain and `found` as what was found.
    pub open spec fn may_try(
        &self,
        tried: Seq<Seq<u8>>,
        candidates: Seq<Seq<u8>>,
        forced_version: Option<LuaVersion>,
        tried_now: Seq<Seq<u8>>,
        found: Option<(Seq<u8>, LuaVersion, LuaOffsets)>,
    ) -> bool {
        &&& forall|i: int|
            tried.len() <= i < tried_now.len() ==> self.may_fail(
                #[trigger] tried_now[i],
                forced_version,
            )
        &&& match found {
            None => tried_now == tried_after(tried, candidates),
            Some(m) => exists|n: int|
                {
                    &&& 0 <= n < candidates.len()
                    &&& tried_now == tried_after(tried, #[trigger] candidates.take(n))
                    &&& !already_tried(tried_now, candidates[n])
                    &&& m.0 == candidates[n]
                    &&& self.may_give(m, forced_version)
                },
        }
    }

    /// The search may go on with the other executable mappings and end with `r`.
    pub open spec fn may_find_mapped(
        &self,
        pid: i32,
        forced_version: Option<LuaVersion>,
        tried: Seq<Seq<u8>>,
        r: Result<LuaModule, LuaError>,
    ) -> bool {
        exists|maps: Result<String, String>| #[trigger]
            call_ensures(self.read_maps, (), maps) && (match maps {
                Err(reason) => r matches Err(LuaError::Io(text)) && text@ == reason@,
                Ok(maps) => exists|
                    tried_now: Seq<Seq<u8>>,
                    found: Option<(Seq<u8>, LuaVersion, LuaOffsets)>,
                |
                    {
                        &&& #[trigger] self.may_try(
                            tried,
                            mapped_candidates(maps@),
                            forced_version,
                            tried_now,
                            found,
                        )
                        &&& match found {
                            Some(m) => r matches Ok(module) && module_view(module) == m,
                            None => r matches Err(LuaError::NotFound { pid: p, tried: t }) && p
                                == pid && part_views(t@) == tried_now,
                        }
                    },
            })
    }

    /// The search may go on with the main executable and end with `r`.
    pub open spec fn may_find_executable(
        &self,
        pid: i32,
        forced_version: Option<LuaVersion>,
        tried: Seq<Seq<u8>>,
        r: Result<LuaModule, LuaError>,
    ) -> bool {
        exists|exe: Option<Vec<u8>>| #[trigger]
            call_ensures(self.read_exe, (), exe) && (match exe {
                None => self.may_find_mapped(pid, forced_version, tried, r),
                Some(exe) => exists|
                    tried_now: Seq<Seq<u8>>,
                    found: Option<(Seq<u8>, LuaVersion, LuaOffsets)>,
                |
                    {
                        &&& #[trigger] self.may_try(
                            tried,
                            seq![without_deleted(exe@)],
                            forced_version,
                            tried_now,
                            found,
                        )
                        &&& match found {
                            Some(m) => r matches Ok(module) && module_view(module) == m,
                            None => self.may_find_mapped(pid, forced_version, tried_now, r),
                        }
                    },
            })
    }

    /// The search may end with `r`.
    pub open spec fn may_find(
        &self,
        pid: i32,
        forced_version: Option<LuaVersion>,
        r: Result<LuaModule, LuaError>,
    ) -> bool {
        exists|maps: Result<String, String>| #[trigger]
            call_ensures(self.read_maps, (), maps) && (match maps {
                Err(reason) => r matches Err(LuaError::Io(text)) && text@ == reason@,
                Ok(maps) => exists|
                    tried_now: Seq<Seq<u8>>,
                    found: Option<(Seq<u8>, LuaVersion, LuaOffsets)>,
                |
                    {
                        &&& #[trigger] self.may_try(
                            seq![],
                            named_candidates(maps@),
                            forced_version,
                            tried_now,
                            found,
                        )
                        &&& match found {
                            Some(m) => r matches Ok(module) && module_view(module) == m,
                            None => self.may_find_executable(pid, forced_version, tried_now, r),
                        }
                    },
            })
    }

    /// The file that was asked for may give `r`.
    pub open spec fn may_take_forced(
        &self,
        path: Seq<u8>,
        forced_version: Option<LuaVersion>,
        r: Result<LuaModule, LuaError>,
    ) -> bool {
        match r {
            Ok(_) => self.may_load(path, forced_version, r),
            Err(LuaError::ForcedModule(p, cause)) => p@ == path && self.may_load(
                path,
                forced_version,
                Err(*cause),
            ),
            Err(_) => false,
        }
    }

    fn load(&self, path: &[u8], forced_version: Option<LuaVersion>) -> (r: Result<
        LuaModule,
        LuaError,
    >)
        requires
            self.can_read(),
        ensures
            self.may_load(path@, forced_version, r),
            match r {
                Ok(m) => m.path@ == path@ && self.may_give(module_view(m), forced_version),
                Err(_) => self.may_fail(path@, forced_version),
            },
    {
        let file = (self.read_file)(path);
        assert(self.may_read(path@, file));
        module_from_path(path, file, forced_version)
    }

    fn try_candidates(
        &self,
        tried: &mut Vec<Vec<u8>>,
        candidates: &Vec<Vec<u8>>,
        forced_version: Option<LuaVersion>,
    ) -> (r: Option<LuaModule>)
        requires
            self.can_read(),
        ensures
            self.may_try(
                part_views(old(tried)@),
                part_views(candidates@),
                forced_version,
                part_views(final(tried)@),
                match r {
                    Some(m) => Some(module_view(m)),
                    None => None,
                },
            ),
    {
        let ghost all = part_views(candidates@);
        let ghost start = part_views(tried@);
        assert(all.take(0) =~= seq![]);
        for i in 0..candidates.len()
            invariant
                self.can_read(),
                all == part_views(candidates@),
                start == part_views(old(tried)@),
                start.len() <= tried@.len(),
                part_views(tried@) == tried_after(start, all.take(i as int)),
                forall|j: int|
                    start.len() <= j < tried@.len() ==> self.may_fail(
                        #[trigger] part_views(tried@)[j],
                        forced_version,
                    ),
        {
            let path = candidates[i].as_slice();
            let ghost before = part_views(tried@);
            assert(all.take(i + 1).drop_last() =~= all.take(i as int));
            assert(path@ == all[i as int]);
            if !is_tried(tried, path) {
                match self.load(path, forced_version) {
                    Ok(m) => {
                        return Some(m);
                    },
                    Err(_) => {
                        tried.push(copy_bytes(path));
                        assert(part_views(tried@) =~= before.push(path@));
                    },
                }
            }
        }
        assert(all.take(all.len() as int) =~= all);
        None
    }

    fn find_mapped(
        &self,
        pid: i32,
        forced_version: Option<LuaVersion>,
        tried: Vec<Vec<u8>>,
    ) -> (r: Result<LuaModule, LuaError>)
        requires
            self.can_read(),
        ensures
            self.may_find_mapped(pid, forced_version, part_views(tried@), r),
    {
        let mut tried = tried;
        match (self.read_maps)() {
            Err(reason) => Err(LuaError::Io(reason)),
            Ok(maps) => {
                let candidates = paths_of(all_exec_maps(maps.as_str()));
                assert(part_views(candidates@) == mapped_candidates(maps@));
                match self.try_candidates(&mut tried, &candidates, forced_version) {
                    Some(m) => Ok(m),
                    None => Err(LuaError::NotFound { pid, tried }),
                }
            },
        }
    }

    fn find_executable(
        &self,
        pid: i32,
        forced_version: Option<LuaVersion>,
        tried: Vec<Vec<u8>>,
    ) -> (r: Result<LuaModule, LuaError>)
        requires
            self.can_read(),
        ensures
            self.may_find_executable(pid, forced_version, part_views(tried@), r),
    {
        let mut tried = tried;
        match (self.read_exe)() {
            None => self.find_mapped(pid, forced_version, tried),
            Some(exe) => {
                let mut candidates: Vec<Vec<u8>> = Vec::new();
                candidates.push(strip_deleted(exe.as_slice()));
                assert(part_views(candidates@) =~= seq![without_deleted(exe@)]);
                match self.try_candidates(&mut tried, &candidates, forced_version) {
                    Some(m) => Ok(m),
                    None => self.find_mapped(pid, forced_version, tried),
                }
            },
        }
    }

    fn find(&self, pid: i32, forced_version: Option<LuaVersion>) -> (r: Result<LuaModule, LuaError>)
        requires
            self.can_read(),
        ensures
            self.may_find(pid, forced_version, r),
    {
        let mut tried: Vec<Vec<u8>> = Vec::new();
        assert(part_views(tried@) =~= seq![]);
        match (self.read_maps)() {
            Err(reason) => Err(LuaError::Io(reason)),
            Ok(maps) => {
                let candidates = paths_of(lua_named_maps(maps.as_str()));
                assert(part_views(candidates@) == named_candidates(maps@));
                match self.try_candidates(&mut tried, &candidates, forced_version) {
                    Some(m) => Ok(m),
                    None => self.find_executable(pid, forced_version, tried),
                }
            },
        }
    }
}

/// Finds the Lua runtime of the process `pid`. `forced_path` and `forced_version`
/// take the place of the search and of the detection.
pub fn find_lua_module<
    R: Fn() -> Result<String, String>,
    X: Fn() -> Option<Vec<u8>>,
    F: Fn(&[u8]) -> Result<Vec<u8>, String>,
>(
    pid: i32,
    forced_path: Option<&[u8]>,
    forced_version: Option<LuaVersion>,
    files: &ProcessFiles<R, X, F>,
) -> (r: Result<LuaModule, LuaError>)
    requires
        files.can_read(),
    ensures
        match forced_path {
            Some(path) => files.may_take_forced(path@, forced_version, r),
            None => files.may_find(pid, forced_version, r),
        },
{
    match forced_path {
        Some(path) => match files.load(path, forced_version) {
            Ok(m) => Ok(m),
            Err(e) => Err(LuaError::ForcedModule(copy_bytes(path), Box::new(e))),
        },
        None => files.find(pid, forced_version),
    }
}

/// Files that do not change while they are read: the bytes of the file at a path, or
/// `None` where it cannot be read.
pub type Disk = spec_fn(Seq<u8>) -> Option<Seq<u8>>;

/// Paths with the same components lead to the same file.
pub open spec fn is_disk(disk: Disk) -> bool {
    forall|a: Seq<u8>, b: Seq<u8>| #[trigger] same_components(a, b) ==> disk(a) == disk(b)
}

/// What the file at `path` of an unchanging disk holds.
pub open spec fn on_disk(
    disk: Disk,
    path: Seq<u8>,
    forced_version: Option<LuaVersion>,
) -> Option<(LuaVersion, LuaOffsets)> {
    loaded(path, disk(path), forced_version)
}

/// None of `paths` leads to a file that can be profiled.
pub open spec fn none_usable(
    disk: Disk,
    paths: Seq<Seq<u8>>,
    forced_version: Option<LuaVersion>,
) -> bool {
    forall|i: int| 0 <= i < paths.len() ==> on_disk(disk, #[trigger] paths[i], forced_version) is None
}

/// The first of `paths` that leads to a file that can be profiled.
pub open spec fn first_usable(
    disk: Disk,
    paths: Seq<Seq<u8>>,
    forced_version: Option<LuaVersion>,
) -> Option<(Seq<u8>, LuaVersion, LuaOffsets)>
    decreases paths.len(),
{
    if paths.len() == 0 {
        None
    } else {
        match on_disk(disk, paths[0], forced_version) {
            Some((version, offsets)) => Some((paths[0], version, offsets)),
            None => first_usable(disk, paths.drop_first(), forced_version),
        }
    }
}

/// The path of the main executable, where it is known.
pub open spec fn executable_candidate(exe: Option<Seq<u8>>) -> Seq<Seq<u8>> {
    match exe {
        Some(path) => seq![without_deleted(path)],
        None => seq![],
    }
}

/// All the paths that are tried, in their order.
pub open spec fn all_candidates(maps: Seq<char>, exe: Option<Seq<u8>>) -> Seq<Seq<u8>> {
    named_candidates(maps) + executable_candidate(exe) + mapped_candidates(maps)
}

impl<
    R: Fn() -> Result<String, String>,
    X: Fn() -> Option<Vec<u8>>,
    F: Fn(&[u8]) -> Result<Vec<u8>, String>,
> ProcessFiles<R, X, F> {
    /// The process has these mappings and this executable, and its files are those of
    /// the disk.
    pub open spec fn stand_still(
        &self,
        maps: Seq<char>,
        exe: Option<Seq<u8>>,
        disk: Disk,
    ) -> bool {
        &&& is_disk(disk)
        &&& forall|answer: Result<String, String>| #[trigger]
            call_ensures(self.read_maps, (), answer) ==> answer is Ok && answer->Ok_0@ == maps
        &&& forall|answer: Option<Vec<u8>>| #[trigger]
            call_ensures(self.read_exe, (), answer) ==> exe == (match answer {
                Some(path) => Some(path@),
                None => None,
            })
        &&& forall|path: Seq<u8>, file: Result<Vec<u8>, String>| #[trigger]
            self.may_read(path, file) ==> file_bytes(file) == disk(path)
    }
}

proof fn same_path_holds_the_same(
    disk: Disk,
    a: Seq<u8>,
    b: Seq<u8>,
    forced_version: Option<LuaVersion>,
)
    requires
        is_disk(disk),
        same_components(a, b),
    ensures
        on_disk(disk, a, forced_version) is None <==> on_disk(disk, b, forced_version) is None,
{
}

proof fn candidates_are_tried(tried: Seq<Seq<u8>>, candidates: Seq<Seq<u8>>)
    ensures
        tried.len() <= tried_after(tried, candidates).len(),
        tried_after(tried, candidates).take(tried.len() as int) == tried,
        forall|i: int|
            0 <= i < candidates.len() ==> already_tried(
                tried_after(tried, candidates),
                #[trigger] candidates[i],
            ),
    decreases candidates.len(),
{
    if candidates.len() > 0 {
        let fewer = candidates.drop_last();
        let rest = tried_after(tried, fewer);
        let now = tried_after(tried, candidates);
        candidates_are_tried(tried, fewer);
        assert(now.take(tried.len() as int) =~= rest.take(tried.len() as int));
        assert forall|i: int| 0 <= i < candidates.len() implies already_tried(
            now,
            #[trigger] candidates[i],
        ) by {
            if i < fewer.len() {
                assert(fewer[i] == candidates[i]);
                let j = choose|j: int|
                    0 <= j < rest.len() && same_components(#[trigger] rest[j], candidates[i]);
                assert(now[j] == rest[j]);
            } else if !already_tried(rest, candidates.last()) {
                assert(same_components(now[rest.len() as int], candidates[i]));
            }
        }
    } else {
        assert(tried.take(tried.len() as int) =~= tried);
    }
}

proof fn none_usable_of_tried(
    disk: Disk,
    tried: Seq<Seq<u8>>,
    candidates: Seq<Seq<u8>>,
    forced_version: Option<LuaVersion>,
)
    requires
        is_disk(disk),
        none_usable(disk, tried_after(tried, candidates), forced_version),
    ensures
        none_usable(disk, candidates, forced_version),
{
    let now = tried_after(tried, candidates);
    candidates_are_tried(tried, candidates);
    assert forall|i: int| 0 <= i < candidates.len() implies on_disk(
        disk,
        #[trigger] candidates[i],
        forced_version,
    ) is None by {
        let j = choose|j: int|
            0 <= j < now.len() && same_components(#[trigger] now[j], candidates[i]);
        same_path_holds_the_same(disk, now[j], candidates[i], forced_version);
    }
}

proof fn first_usable_skips(
    disk: Disk,
    paths: Seq<Seq<u8>>,
    forced_version: Option<LuaVersion>,
    n: int,
)
    requires
        0 <= n <= paths.len(),
        none_usable(disk, paths.take(n), forced_version),
    ensures
        first_usable(disk, paths, forced_version) == first_usable(
            disk,
            paths.skip(n),
            forced_version,
        ),
    decreases n,
{
    if n > 0 {
        let rest = paths.drop_first();
        assert(paths.take(n)[0] == paths[0]);
        assert forall|i: int| 0 <= i < n - 1 implies on_disk(
            disk,
            #[trigger] rest.take(n - 1)[i],
            forced_version,
        ) is None by {
            assert(rest.take(n - 1)[i] == paths.take(n)[i + 1]);
        }
        first_usable_skips(disk, rest, forced_version, n - 1);
        assert(rest.skip(n - 1) =~= paths.skip(n));
    } else {
        assert(paths.skip(0) =~= paths);
    }
}

proof fn trying_finds_the_first<
    R: Fn() -> Result<String, String>,
    X: Fn() -> Option<Vec<u8>>,
    F: Fn(&[u8]) -> Result<Vec<u8>, String>,
>(
    files: &ProcessFiles<R, X, F>,
    maps: Seq<char>,
    exe: Option<Seq<u8>>,
    disk: Disk,
    tried: Seq<Seq<u8>>,
    candidates: Seq<Seq<u8>>,
    forced_version: Option<LuaVersion>,
    tried_now: Seq<Seq<u8>>,
    found: Option<(Seq<u8>, LuaVersion, LuaOffsets)>,
)
    requires
        files.stand_still(maps, exe, disk),
        none_usable(disk, tried, forced_version),
        files.may_try(tried, candidates, forced_version, tried_now, found),
    ensures
        found == first_usable(disk, candidates, forced_version),
        found is None ==> none_usable(disk, tried_now, forced_version) && none_usable(
            disk,
            candidates,
            forced_version,
        ) && tried_now == tried_after(tried, candidates),
{
    let n = match found {
        Some(m) => choose|n: int|
            {
                &&& 0 <= n < candidates.len()
                &&& tried_now == tried_after(tried, #[trigger] candidates.take(n))
                &&& !already_tried(tried_now, candidates[n])
                &&& m.0 == candidates[n]
                &&& files.may_give(m, forced_version)
            },
        None => candidates.len() as int,
    };
    assert(candidates.take(candidates.len() as int) =~= candidates);
    let fruitless = candidates.take(n);
    assert(tried_now == tried_after(tried, fruitless));
    candidates_are_tried(tried, fruitless);
    assert forall|i: int| 0 <= i < tried_now.len() implies on_disk(
        disk,
        #[trigger] tried_now[i],
        forced_version,
    ) is None by {
        if i < tried.len() {
            assert(tried_now.take(tried.len() as int)[i] == tried[i]);
        } else {
            assert(files.may_fail(tried_now[i], forced_version));
        }
    }
    none_usable_of_tried(disk, tried, fruitless, forced_version);
    first_usable_skips(disk, candidates, forced_version, n);
    if found is Some {
        assert(candidates.skip(n)[0] == candidates[n]);
        assert(files.may_give(found->0, forced_version));
    }
}

proof fn tried_after_both(tried: Seq<Seq<u8>>, a: Seq<Seq<u8>>, b: Seq<Seq<u8>>)
    ensures
        tried_after(tried, a + b) == tried_after(tried_after(tried, a), b),
    decreases b.len(),
{
    if b.len() > 0 {
        tried_after_both(tried, a, b.drop_last());
        assert((a + b).drop_last() =~= a + b.drop_last());
    } else {
        assert(a + b =~= a);
    }
}

proof fn first_usable_of_both(
    disk: Disk,
    a: Seq<Seq<u8>>,
    b: Seq<Seq<u8>>,
    forced_version: Option<LuaVersion>,
)
    ensures
        first_usable(disk, a + b, forced_version) == (match first_usable(disk, a, forced_version) {
            Some(m) => Some(m),
            None => first_usable(disk, b, forced_version),
        }),
    decreases a.len(),
{
    if a.len() > 0 {
        first_usable_of_both(disk, a.drop_first(), b, forced_version);
        assert((a + b).drop_first() =~= a.drop_first() + b);
    } else {
        assert(a + b =~= b);
    }
}

/// While neither the process nor its files change, the search finds the first file
/// that can be profiled: among the mappings whose paths speak of Lua, then the main
/// executable, then the other executable mappings. It finds nothing only if none of
/// them can be, and then says which paths it tried, each of them once.
pub proof fn search_finds_the_first_usable_file<
    R: Fn() -> Result<String, String>,
    X: Fn() -> Option<Vec<u8>>,
    F: Fn(&[u8]) -> Result<Vec<u8>, String>,
>(
    files: &ProcessFiles<R, X, F>,
    maps: Seq<char>,
    exe: Option<Seq<u8>>,
    disk: Disk,
    pid: i32,
    forced_version: Option<LuaVersion>,
    r: Result<LuaModule, LuaError>,
)
    requires
        files.stand_still(maps, exe, disk),
        files.may_find(pid, forced_version, r),
    ensures
        match first_usable(disk, all_candidates(maps, exe), forced_version) {
            Some(m) => r matches Ok(module) && module_view(module) == m,
            None => r matches Err(LuaError::NotFound { pid: p, tried: t }) && p == pid
                && part_views(t@) == tried_after(seq![], all_candidates(maps, exe)),
        },
{
    let named = named_candidates(maps);
    let own = executable_candidate(exe);
    let mapped = mapped_candidates(maps);
    first_usable_of_both(disk, named + own, mapped, forced_version);
    first_usable_of_both(disk, named, own, forced_version);
    tried_after_both(seq![], named + own, mapped);
    tried_after_both(seq![], named, own);
    let none: Seq<Seq<u8>> = seq![];
    assert(none_usable(disk, none, forced_version));
    let (tried, found) = choose|
        tried: Seq<Seq<u8>>,
        found: Option<(Seq<u8>, LuaVersion, LuaOffsets)>,
    |
        {
            &&& #[trigger] files.may_try(none, named, forced_version, tried, found)
            &&& match found {
                Some(m) => r matches Ok(module) && module_view(module) == m,
                None => files.may_find_executable(pid, forced_version, tried, r),
            }
        };
    trying_finds_the_first(files, maps, exe, disk, none, named, forced_version, tried, found);
    if found is None {
        let answer = choose|answer: Option<Vec<u8>>| #[trigger]
            call_ensures(files.read_exe, (), answer) && (match answer {
                None => files.may_find_mapped(pid, forced_version, tried, r),
                Some(path) => exists|
                    tried_now: Seq<Seq<u8>>,
                    found: Option<(Seq<u8>, LuaVersion, LuaOffsets)>,
                |
                    {
                        &&& #[trigger] files.may_try(
                            tried,
                            seq![without_deleted(path@)],
                            forced_version,
                            tried_now,
                            found,
                        )
                        &&& match found {
                            Some(m) => r matches Ok(module) && module_view(module) == m,
                            None => files.may_find_mapped(pid, forced_version, tried_now, r),
                        }
                    },
            });
        match answer {
            None => {
                mapped_search_finds_the_first(
                    files,
                    maps,
                    exe,
                    disk,
                    pid,
                    forced_version,
                    tried,
                    r,
                );
            },
            Some(path) => {
                let (tried_now, found_now) = choose|
                    tried_now: Seq<Seq<u8>>,
                    found: Option<(Seq<u8>, LuaVersion, LuaOffsets)>,
                |
                    {
                        &&& #[trigger] files.may_try(
                            tried,
                            seq![without_deleted(path@)],
                            forced_version,
                            tried_now,
                            found,
                        )
                        &&& match found {
                            Some(m) => r matches Ok(module) && module_view(module) == m,
                            None => files.may_find_mapped(pid, forced_version, tried_now, r),
                        }
                    };
                trying_finds_the_first(
                    files,
                    maps,
                    exe,
                    disk,
                    tried,
                    own,
                    forced_version,
                    tried_now,
                    found_now,
                );
                if found_now is None {
                    mapped_search_finds_the_first(
                        files,
                        maps,
                        exe,
                        disk,
                        pid,
                        forced_version,
                        tried_now,
                        r,
                    );
                }
            },
        }
    }
}

proof fn mapped_search_finds_the_first<
    R: Fn() -> Result<String, String>,
    X: Fn() -> Option<Vec<u8>>,
    F: Fn(&[u8]) -> Result<Vec<u8>, String>,
>(
    files: &ProcessFiles<R, X, F>,
    maps: Seq<char>,
    exe: Option<Seq<u8>>,
    disk: Disk,
    pid: i32,
    forced_version: Option<LuaVersion>,
    tried: Seq<Seq<u8>>,
    r: Result<LuaModule, LuaError>,
)
    requires
        files.stand_still(maps, exe, disk),
        none_usable(disk, tried, forced_version),
        files.may_find_mapped(pid, forced_version, tried, r),
    ensures
        match first_usable(disk, mapped_candidates(maps), forced_version) {
            Some(m) => r matches Ok(module) && module_view(module) == m,
            None => r matches Err(LuaError::NotFound { pid: p, tried: t }) && p == pid
                && part_views(t@) == tried_after(tried, mapped_candidates(maps)),
        },
{
    let mapped = mapped_candidates(maps);
    let (tried_now, found) = choose|
        tried_now: Seq<Seq<u8>>,
        found: Option<(Seq<u8>, LuaVersion, LuaOffsets)>,
    |
        {
            &&& #[trigger] files.may_try(tried, mapped, forced_version, tried_now, found)
            &&& match found {
                Some(m) => r matches Ok(module) && module_view(module) == m,
                None => r matches Err(LuaError::NotFound { pid: p, tried: t }) && p == pid
                    && part_views(t@) == tried_now,
            }
        };
    trying_finds_the_first(files, maps, exe, disk, tried, mapped, forced_version, tried_now, found);
}

/// No path is tried twice, nor another one with the same components.
pub proof fn no_path_is_tried_twice(candidates: Seq<Seq<u8>>, i: int, j: int)
    requires
        0 <= i < j < tried_after(seq![], candidates).len(),
    ensures
        !same_components(
            tried_after(seq![], candidates)[i],
            tried_after(seq![], candidates)[j],
        ),
    decreases candidates.len(),
{
    if candidates.len() > 0 {
        let rest = tried_after(seq![], candidates.drop_last());
        if j < rest.len() {
            no_path_is_tried_twice(candidates.drop_last(), i, j);
        } else if same_components(rest[i], candidates.last()) {
            assert(already_tried(rest, candidates.last()));
        }
    }
}

/// While its file does not change, the path that was asked for decides alone, whatever
/// the mappings and the other files: the file there is taken where it can be profiled, and
/// nothing is where it cannot. `bytes` is what the file holds, where it can be read.
pub proof fn forced_file_decides<
    R: Fn() -> Result<String, String>,
    X: Fn() -> Option<Vec<u8>>,
    F: Fn(&[u8]) -> Result<Vec<u8>, String>,
>(
    files: &ProcessFiles<R, X, F>,
    path: Seq<u8>,
    bytes: Option<Seq<u8>>,
    forced_version: Option<LuaVersion>,
    r: Result<LuaModule, LuaError>,
)
    requires
        forall|file: Result<Vec<u8>, String>| #[trigger]
            files.may_read(path, file) ==> file_bytes(file) == bytes,
        files.may_take_forced(path, forced_version, r),
    ensures
        match loaded(path, bytes, forced_version) {
            Some((version, offsets)) => r matches Ok(m) && module_view(m) == (
                path,
                version,
                offsets,
            ),
            None => r matches Err(LuaError::ForcedModule(p, _)) && p@ == path,
        },
{
}

/// In a process that stands still, the path that was asked for decides alone: the file
/// there is taken where it can be profiled, and nothing is where it cannot.
pub proof fn forced_path_decides<
    R: Fn() -> Result<String, String>,
    X: Fn() -> Option<Vec<u8>>,
    F: Fn(&[u8]) -> Result<Vec<u8>, String>,
>(
    files: &ProcessFiles<R, X, F>,
    maps: Seq<char>,
    exe: Option<Seq<u8>>,
    disk: Disk,
    path: Seq<u8>,
    forced_version: Option<LuaVersion>,
    r: Result<LuaModule, LuaError>,
)
    requires
        files.stand_still(maps, exe, disk),
        files.may_take_forced(path, forced_version, r),
    ensures
        match on_disk(disk, path, forced_version) {
            Some((version, offsets)) => r matches Ok(m) && module_view(m) == (
                path,
                version,
                offsets,
            ),
            None => r matches Err(LuaError::ForcedModule(p, _)) && p@ == path,
        },
{
    forced_file_decides(files, path, disk(path), forced_version, r);
}

/// What a file holds is what comes of it: the version and the offsets of the module, or
/// nothing where it cannot be profiled.
pub proof fn file_holds_what_comes_of_it(
    path: Seq<u8>,
    file: Result<Vec<u8>, String>,
    forced_version: Option<LuaVersion>,
    r: Result<LuaModule, LuaError>,
)
    requires
        is_outcome(path, file, forced_version, r),
    ensures
        loaded(
            path,
            match file {
                Ok(bytes) => Some(bytes@),
                Err(_) => None,
            },
            forced_version,
        ) == match r {
            Ok(m) => Some((m.version, m.offsets)),
            Err(_) => None,
        },
{
}

proof fn first_usable_is_first(disk: Disk, paths: Seq<Seq<u8>>, forced_version: Option<LuaVersion>)
    ensures
        match first_usable(disk, paths, forced_version) {
            Some(m) => exists|n: int|
                {
                    &&& 0 <= n < paths.len()
                    &&& #[trigger] paths[n] == m.0
                    &&& on_disk(disk, paths[n], forced_version) == Some((m.1, m.2))
                    &&& forall|j: int|
                        0 <= j < n ==> on_disk(disk, #[trigger] paths[j], forced_version) is None
                },
            None => none_usable(disk, paths, forced_version),
        },
    decreases paths.len(),
{
    if paths.len() > 0 {
        let rest = paths.drop_first();
        first_usable_is_first(disk, rest, forced_version);
        if on_disk(disk, paths[0], forced_version) is Some {
            assert(paths[0] == (first_usable(disk, paths, forced_version)->0).0);
        } else {
            match first_usable(disk, rest, forced_version) {
                Some(m) => {
                    let n = choose|n: int|
                        {
                            &&& 0 <= n < rest.len()
                            &&& #[trigger] rest[n] == m.0
                            &&& on_disk(disk, rest[n], forced_version) == Some((m.1, m.2))
                            &&& forall|j: int|
                                0 <= j < n ==> on_disk(
                                    disk,
                                    #[trigger] rest[j],
                                    forced_version,
                                ) is None
                        };
                    assert(paths[n + 1] == rest[n]);
                    assert forall|j: int| 0 <= j < n + 1 implies on_disk(
                        disk,
                        #[trigger] paths[j],
                        forced_version,
                    ) is None by {
                        if j > 0 {
                            assert(paths[j] == rest[j - 1]);
                        }
                    }
                },
                None => {
                    assert forall|j: int| 0 <= j < paths.len() implies on_disk(
                        disk,
                        #[trigger] paths[j],
                        forced_version,
                    ) is None by {
                        if j > 0 {
                            assert(paths[j] == rest[j - 1]);
                        }
                    }
                },
            }
        }
    }
}

proof fn tried_are_candidates(candidates: Seq<Seq<u8>>)
    ensures
        forall|i: int|
            0 <= i < tried_after(seq![], candidates).len() ==> candidates.contains(
                #[trigger] tried_after(seq![], candidates)[i],
            ),
    decreases candidates.len(),
{
    if candidates.len() > 0 {
        let fewer = candidates.drop_last();
        let rest = tried_after(seq![], fewer);
        let now = tried_after(seq![], candidates);
        tried_are_candidates(fewer);
        assert forall|i: int| 0 <= i < now.len() implies candidates.contains(#[trigger] now[i]) by {
            if i < rest.len() {
                assert(fewer.contains(rest[i]));
                assert(candidates[fewer.index_of(rest[i])] == now[i]);
            } else {
                assert(candidates[candidates.len() - 1] == now[i]);
            }
        }
    }
}

/// Paths are tried in their order: one is tried before another only if it stands before
/// every path with the components of the other.
pub proof fn paths_are_tried_in_their_order(candidates: Seq<Seq<u8>>, a: int, b: int)
    requires
        0 <= a < b < tried_after(seq![], candidates).len(),
    ensures
        exists|k: int|
            {
                &&& 0 <= k < candidates.len()
                &&& #[trigger] candidates[k] == tried_after(seq![], candidates)[a]
                &&& forall|i: int|
                    0 <= i <= k ==> !same_components(
                        #[trigger] candidates[i],
                        tried_after(seq![], candidates)[b],
                    )
            },
    decreases candidates.len(),
{
    let fewer = candidates.drop_last();
    let rest = tried_after(seq![], fewer);
    let now = tried_after(seq![], candidates);
    if b < rest.len() {
        paths_are_tried_in_their_order(fewer, a, b);
        let k = choose|k: int|
            {
                &&& 0 <= k < fewer.len()
                &&& #[trigger] fewer[k] == rest[a]
                &&& forall|i: int| 0 <= i <= k ==> !same_components(#[trigger] fewer[i], rest[b])
            };
        assert(candidates[k] == now[a]);
        assert forall|i: int| 0 <= i <= k implies !same_components(
            #[trigger] candidates[i],
            now[b],
        ) by {
            assert(fewer[i] == candidates[i]);
        }
    } else {
        tried_are_candidates(fewer);
        candidates_are_tried(seq![], fewer);
        assert(fewer.contains(rest[a]));
        let k = fewer.index_of(rest[a]);
        assert(candidates[k] == now[a]);
        assert forall|i: int| 0 <= i <= k implies !same_components(
            #[trigger] candidates[i],
            now[b],
        ) by {
            assert(fewer[i] == candidates[i]);
            if same_components(fewer[i], now[b]) {
                let j = choose|j: int|
                    0 <= j < rest.len() && same_components(#[trigger] rest[j], fewer[i]);
                assert(same_components(rest[j], now[b]));
                assert(already_tried(rest, candidates.last()));
            }
        }
    }
}

/// What the search comes to, while neither the process nor its files change. The paths are,
/// in this order: those of the executable mappings that speak of Lua, that of the main
/// executable, and those of all the executable mappings. The first that leads to a file
/// that can be profiled is taken. Where none does, every one of them was tried, no two with
/// the same components and nothing else.
pub proof fn search_takes_the_first_that_can_be_profiled<
    R: Fn() -> Result<String, String>,
    X: Fn() -> Option<Vec<u8>>,
    F: Fn(&[u8]) -> Result<Vec<u8>, String>,
>(
    files: &ProcessFiles<R, X, F>,
    maps: Seq<char>,
    exe: Option<Seq<u8>>,
    disk: Disk,
    pid: i32,
    forced_version: Option<LuaVersion>,
    r: Result<LuaModule, LuaError>,
    paths: Seq<Seq<u8>>,
)
    requires
        files.stand_still(maps, exe, disk),
        files.may_find(pid, forced_version, r),
        paths == distinct(lua_named(executable_files(lines_of(maps)))).map_values(
            |t: Seq<char>| encode_utf8(t),
        ) + (match exe {
            Some(path) => seq![without_deleted(path)],
            None => seq![],
        }) + distinct(executable_files(lines_of(maps))).map_values(|t: Seq<char>| encode_utf8(t)),
    ensures
        match r {
            Ok(m) => exists|n: int|
                {
                    &&& 0 <= n < paths.len()
                    &&& #[trigger] paths[n] == m.path@
                    &&& loaded(paths[n], disk(paths[n]), forced_version) == Some(
                        (m.version, m.offsets),
                    )
                    &&& forall|j: int|
                        0 <= j < n ==> loaded(
                            #[trigger] paths[j],
                            disk(paths[j]),
                            forced_version,
                        ) is None
                },
            Err(LuaError::NotFound { pid: p, tried }) => {
                &&& p == pid
                &&& forall|j: int|
                    0 <= j < paths.len() ==> loaded(
                        #[trigger] paths[j],
                        disk(paths[j]),
                        forced_version,
                    ) is None
                &&& forall|j: int|
                    0 <= j < paths.len() ==> exists|i: int|
                        0 <= i < tried@.len() && same_components(
                            (#[trigger] tried@[i])@,
                            #[trigger] paths[j],
                        )
                &&& forall|i: int|
                    0 <= i < tried@.len() ==> paths.contains((#[trigger] tried@[i])@)
                &&& forall|i: int, j: int|
                    0 <= i < j < tried@.len() ==> !same_components(
                        (#[trigger] tried@[i])@,
                        (#[trigger] tried@[j])@,
                    )
            },
            Err(_) => false,
        },
{
    search_finds_the_first_usable_file(files, maps, exe, disk, pid, forced_version, r);
    let all = all_candidates(maps, exe);
    assert(paths =~= all);
    first_usable_is_first(disk, all, forced_version);
    match r {
        Ok(m) => {
            let n = choose|n: int|
                {
                    &&& 0 <= n < all.len()
                    &&& #[trigger] all[n] == m.path@
                    &&& on_disk(disk, all[n], forced_version) == Some((m.version, m.offsets))
                    &&& forall|j: int|
                        0 <= j < n ==> on_disk(disk, #[trigger] all[j], forced_version) is None
                };
            assert(paths[n] == m.path@);
        },
        Err(LuaError::NotFound { pid: p, tried }) => {
            let views = tried_after(seq![], all);
            assert(part_views(tried@) == views);
            candidates_are_tried(seq![], all);
            tried_are_candidates(all);
            assert forall|j: int| 0 <= j < paths.len() implies exists|i: int|
                0 <= i < tried@.len() && same_components(
                    (#[trigger] tried@[i])@,
                    #[trigger] paths[j],
                ) by {
                assert(already_tried(views, all[j]));
                let i = choose|i: int|
                    0 <= i < views.len() && same_components(#[trigger] views[i], all[j]);
                assert(tried@[i]@ == views[i]);
            }
            assert forall|i: int| 0 <= i < tried@.len() implies paths.contains(
                (#[trigger] tried@[i])@,
            ) by {
                assert(tried@[i]@ == views[i]);
            }
            assert forall|i: int, j: int| 0 <= i < j < tried@.len() implies !same_components(
                (#[trigger] tried@[i])@,
                (#[trigger] tried@[j])@,
            ) by {
                assert(tried@[i]@ == views[i] && tried@[j]@ == views[j]);
                no_path_is_tried_twice(all, i, j);
            }
        },
        Err(_) => {},
    }
}

/// Where the mappings cannot be read, the search ends with the reason.
pub proof fn unreadable_mappings_end_the_search<
    R: Fn() -> Result<String, String>,
    X: Fn() -> Option<Vec<u8>>,
    F: Fn(&[u8]) -> Result<Vec<u8>, String>,
>(
    files: &ProcessFiles<R, X, F>,
    pid: i32,
    forced_version: Option<LuaVersion>,
    r: Result<LuaModule, LuaError>,
    reason: Seq<char>,
)
    requires
        forall|answer: Result<String, String>| #[trigger]
            call_ensures(files.read_maps, (), answer) ==> answer is Err && answer->Err_0@ == reason,
        files.may_find(pid, forced_version, r),
    ensures
        r matches Err(LuaError::Io(text)) && text@ == reason,
{
}

} // verus!
