//! Mount points and the resolution of logical paths.

use std::marker::PhantomData;
use vstd::prelude::*;
use crate::files::path::{DirPolicy, LogicalPath};
use crate::files::FileError;

verus! {

/// Named mount points for the virtual file system.
#[derive(Hash, Eq, PartialEq, Structural, Debug, Clone, Copy)]
pub enum Mount {
    /// Engine-internal assets (shaders, default textures).
    Engine,
    /// Game-specific assets (models, textures, levels).
    Game,
    /// Per-user data (saves, config).
    User,
}

/// The path that `std::path::Path::join` makes of a path and a part adjoined
/// to it, both given as text.
pub uninterp spec fn path_join(base: Seq<char>, part: Seq<char>) -> Seq<char>;

/// `std::path::Path::join`, on paths given and returned as text: the result
/// is the path that the standard library makes by adjoining `part` to `base`.
#[verifier::external_body]
fn join(base: &str, part: &str) -> (joined: String)
    ensures
        joined@ == path_join(base@, part@),
{
    std::path::Path::new(base).join(part).to_string_lossy().into_owned()
}

/// Virtual file system that resolves logical paths through named mount points.
pub struct FileManager<P: LogicalPath> {
    engine: String,
    game: String,
    user: String,
    _marker: PhantomData<P>,
}

impl<P: LogicalPath> FileManager<P> {
    /// The directory a mount point stands for.
    pub closed spec fn mount_point(&self, mount: Mount) -> Seq<char> {
        match mount {
            Mount::Engine => self.engine@,
            Mount::Game => self.game@,
            Mount::User => self.user@,
        }
    }

    /// The physical path of `file` at a logical location.
    pub open spec fn located(&self, logical: P, file: Seq<char>) -> Seq<char> {
        path_join(
            path_join(self.mount_point(logical.location().mount), logical.location().relative_path@),
            file,
        )
    }

    /// Creates a file manager whose mount points lie under `root`:
    /// `engine_assets`, `game_assets/<game_name>` and `user_data/<game_name>`.
    pub fn with_root(root: &str, game_name: &str) -> (manager: FileManager<P>)
        ensures
            manager.mount_point(Mount::Engine) == path_join(root@, "engine_assets"@),
            manager.mount_point(Mount::Game) == path_join(
                path_join(root@, "game_assets"@),
                game_name@,
            ),
            manager.mount_point(Mount::User) == path_join(
                path_join(root@, "user_data"@),
                game_name@,
            ),
    {
        let engine = join(root, "engine_assets");
        let game_assets = join(root, "game_assets");
        let game = join(game_assets.as_str(), game_name);
        let user_data = join(root, "user_data");
        let user = join(user_data.as_str(), game_name);
        FileManager { engine, game, user, _marker: PhantomData }
    }

    /// Returns the physical path that a logical path and filename stand for,
    /// whether or not anything exists there.
    pub fn locate(&self, logical: P, file: &str) -> (full: String)
        ensures
            full@ == self.located(logical, file@),
    {
        let res = logical.resource_path();
        let base = match res.mount {
            Mount::Engine => self.engine.as_str(),
            Mount::Game => self.game.as_str(),
            Mount::User => self.user.as_str(),
        };
        let directory = join(base, res.relative_path.as_str());
        join(directory.as_str(), file)
    }

    /// Resolves a logical path and filename to a physical file path, given
    /// whether that path exists.
    ///
    /// An existing path is returned. A missing one is an error: of a location
    /// whose policy is `Required`, `MissingRequired`; of any other,
    /// `NotFound`.
    pub fn resolve(&self, logical: P, file: &str, exists: bool) -> (resolved: Result<
        String,
        FileError,
    >)
        ensures
            exists ==> (resolved matches Ok(full) && full@ == self.located(logical, file@)),
            !exists && logical.location().policy is Required ==> resolved
                == Err::<String, FileError>(FileError::MissingRequired),
            !exists && !(logical.location().policy is Required) ==> resolved == Err::<
                String,
                FileError,
            >(FileError::NotFound),
    {
        if !exists {
            match logical.resource_path().policy {
                DirPolicy::Required => Err(FileError::MissingRequired),
                _ => Err(FileError::NotFound),
            }
        } else {
            Ok(self.locate(logical, file))
        }
    }
}

} // verus!
