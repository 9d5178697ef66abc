//! Configuration records consumed by the pipeline, and the resolution of the
//! configured directories against the process working directory. Loading the
//! records from files or the environment is the surrounding process's job.

use vstd::prelude::*;

verus! {

/// Everything the process is configured with.
pub struct Settings {
    pub file_processing: FileProcessConfig,
    pub redis: RedisConfig,
    pub watcher: WatcherConfig,
}

/// Where source files are read and chapter files written.
pub struct FileProcessConfig {
    pub input_dir: String,
    pub output_dir: String,
    pub supported_ext: Vec<String>,
}

/// How the shared store is reached.
pub struct RedisConfig {
    pub url: String,
    pub pass: Option<String>,
    pub key_prefix: String,
}

/// How the input directory is watched.
pub struct WatcherConfig {
    pub recursive: bool,
    pub concurrent_limit: usize,
}

/// A configured directory resolved against the working directory: an
/// absolute path stands as it is; a relative one is joined to the working
/// directory with a separator.
pub open spec fn resolved_path(cwd: Seq<char>, dir: Seq<char>) -> Seq<char> {
    if dir.len() > 0 && dir[0] == '/' {
        dir
    } else {
        cwd + seq!['/'] + dir
    }
}

impl FileProcessConfig {
    /// The input directory resolved against the working directory.
    pub fn input_path(&self, cwd: &str) -> (r: String)
        ensures
            r@ == resolved_path(cwd@, self.input_dir@),
    {
        Self::normalize_path(cwd, self.input_dir.as_str())
    }

    /// The output directory resolved against the working directory.
    pub fn output_path(&self, cwd: &str) -> (r: String)
        ensures
            r@ == resolved_path(cwd@, self.output_dir@),
    {
        Self::normalize_path(cwd, self.output_dir.as_str())
    }

    fn normalize_path(cwd: &str, dir: &str) -> (r: String)
        ensures
            r@ == resolved_path(cwd@, dir@),
    {
        let len = dir.unicode_len();
        if len > 0 && dir.get_char(0) == '/' {
            String::from_str(dir)
        } else {
            let mut out = String::from_str(cwd);
            out.append("/");
            out.append(dir);
            proof {
                reveal_strlit("/");
                assert(out@ =~= resolved_path(cwd@, dir@));
            }
            out
        }
    }
}

} // verus!
