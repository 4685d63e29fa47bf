use vstd::prelude::*;

verus! {

/// Settings for compiling a set of kernel source files into one library.
///
/// Options left unset (`None`) fall back to the values that the build
/// environment provides; those are resolved by the caller and passed in.
pub struct Config {
    pub ispc_files: Vec<String>,
    pub objects: Vec<String>,
    pub headers: Vec<String>,
    pub include_directories: Vec<String>,
    /// The single header that includes every generated header.
    pub bindgen_header: String,
    pub out_dir: Option<String>,
    pub debug: Option<bool>,
    pub opt_level: Option<u32>,
    pub target: Option<String>,
    pub cargo_metadata: bool,
}

/// The compiler flag that selects optimisation level `level`, if it is one
/// the compiler knows.
pub open spec fn opt_flag(level: u32) -> Option<Seq<char>> {
    if level == 0 {
        Some("-O0"@)
    } else if level == 1 {
        Some("-O1"@)
    } else if level == 2 {
        Some("-O2"@)
    } else if level == 3 {
        Some("-O3"@)
    } else {
        None
    }
}

/// The flags passed to the compiler for every source file: debug symbols
/// when asked for, then the optimisation level, then position-independent
/// code where the platform needs it.
pub open spec fn args_spec(debug: bool, opt_level: u32, pic: bool) -> Seq<Seq<char>> {
    let a = if debug { seq!["-g"@] } else { Seq::empty() };
    let b = match opt_flag(opt_level) {
        Some(f) => a.push(f),
        None => a,
    };
    if pic { b.push("--pic"@) } else { b }
}

/// The flags for the given settings, as `args_spec` states them.
pub fn ispc_args(debug: bool, opt_level: u32, pic: bool) -> (r: Vec<String>)
    ensures
        r@.map_values(|s: String| s@) == args_spec(debug, opt_level, pic),
{
    let mut args: Vec<String> = Vec::new();
    if debug {
        args.push("-g".to_owned());
    }
    if opt_level == 0 {
        args.push("-O0".to_owned());
    } else if opt_level == 1 {
        args.push("-O1".to_owned());
    } else if opt_level == 2 {
        args.push("-O2".to_owned());
    } else if opt_level == 3 {
        args.push("-O3".to_owned());
    }
    if pic {
        args.push("--pic".to_owned());
    }
    proof {
        reveal_strlit("-g");
        reveal_strlit("-O0");
        reveal_strlit("-O1");
        reveal_strlit("-O2");
        reveal_strlit("-O3");
        reveal_strlit("--pic");
    }
    assert(args@.map_values(|s: String| s@) =~= args_spec(debug, opt_level, pic));
    args
}

impl Config {
    /// A configuration with no files and every option left to the environment,
    /// with cargo metadata on.
    pub fn new() -> (c: Config)
        ensures
            c.ispc_files@.len() == 0,
            c.objects@.len() == 0,
            c.headers@.len() == 0,
            c.include_directories@.len() == 0,
            c.bindgen_header@.len() == 0,
            c.out_dir.is_none(),
            c.debug.is_none(),
            c.opt_level.is_none(),
            c.target.is_none(),
            c.cargo_metadata,
    {
        Config {
            ispc_files: Vec::new(),
            objects: Vec::new(),
            headers: Vec::new(),
            include_directories: Vec::new(),
            bindgen_header: String::new(),
            out_dir: None,
            debug: None,
            opt_level: None,
            target: None,
            cargo_metadata: true,
        }
    }

    /// Adds a source file to be compiled.
    pub fn file(&mut self, p: &str)
        ensures
            final(self).ispc_files@.map_values(|s: String| s@)
                == old(self).ispc_files@.map_values(|s: String| s@).push(p@),
            final(self).objects == old(self).objects,
            final(self).headers == old(self).headers,
            final(self).include_directories == old(self).include_directories,
            final(self).bindgen_header == old(self).bindgen_header,
            final(self).out_dir == old(self).out_dir,
            final(self).debug == old(self).debug,
            final(self).opt_level == old(self).opt_level,
            final(self).target == old(self).target,
            final(self).cargo_metadata == old(self).cargo_metadata,
    {
        self.ispc_files.push(p.to_owned());
        assert(self.ispc_files@.map_values(|s: String| s@)
            =~= old(self).ispc_files@.map_values(|s: String| s@).push(p@));
    }

    /// Sets the output directory, overriding the environment's.
    pub fn out_dir(&mut self, p: &str)
        ensures
            final(self).objects == old(self).objects,
            final(self).headers == old(self).headers,
            final(self).include_directories == old(self).include_directories,
            final(self).bindgen_header == old(self).bindgen_header,
            final(self).out_dir.is_some() && final(self).out_dir.unwrap()@ == p@,
            final(self).ispc_files == old(self).ispc_files,
            final(self).debug == old(self).debug,
            final(self).opt_level == old(self).opt_level,
            final(self).target == old(self).target,
            final(self).cargo_metadata == old(self).cargo_metadata,
    {
        self.out_dir = Some(p.to_owned());
    }

    /// Sets whether debug symbols are generated, overriding the environment.
    pub fn debug(&mut self, debug: bool)
        ensures
            final(self).objects == old(self).objects,
            final(self).headers == old(self).headers,
            final(self).include_directories == old(self).include_directories,
            final(self).bindgen_header == old(self).bindgen_header,
            final(self).debug == Some(debug),
            final(self).ispc_files == old(self).ispc_files,
            final(self).out_dir == old(self).out_dir,
            final(self).opt_level == old(self).opt_level,
            final(self).target == old(self).target,
            final(self).cargo_metadata == old(self).cargo_metadata,
    {
        self.debug = Some(debug);
    }

    /// Sets the optimisation level, overriding the environment's.
    pub fn opt_level(&mut self, opt_level: u32)
        ensures
            final(self).objects == old(self).objects,
            final(self).headers == old(self).headers,
            final(self).include_directories == old(self).include_directories,
            final(self).bindgen_header == old(self).bindgen_header,
            final(self).opt_level == Some(opt_level),
            final(self).ispc_files == old(self).ispc_files,
            final(self).out_dir == old(self).out_dir,
            final(self).debug == old(self).debug,
            final(self).target == old(self).target,
            final(self).cargo_metadata == old(self).cargo_metadata,
    {
        self.opt_level = Some(opt_level);
    }

    /// Sets the target triple, overriding the environment's.
    pub fn target(&mut self, target: &str)
        ensures
            final(self).objects == old(self).objects,
            final(self).headers == old(self).headers,
            final(self).include_directories == old(self).include_directories,
            final(self).bindgen_header == old(self).bindgen_header,
            final(self).target.is_some() && final(self).target.unwrap()@ == target@,
            final(self).ispc_files == old(self).ispc_files,
            final(self).out_dir == old(self).out_dir,
            final(self).debug == old(self).debug,
            final(self).opt_level == old(self).opt_level,
            final(self).cargo_metadata == old(self).cargo_metadata,
    {
        self.target = Some(target.to_owned());
    }

    /// Sets whether cargo metadata is printed to link the built library.
    pub fn cargo_metadata(&mut self, metadata: bool)
        ensures
            final(self).objects == old(self).objects,
            final(self).headers == old(self).headers,
            final(self).include_directories == old(self).include_directories,
            final(self).bindgen_header == old(self).bindgen_header,
            final(self).cargo_metadata == metadata,
            final(self).ispc_files == old(self).ispc_files,
            final(self).out_dir == old(self).out_dir,
            final(self).debug == old(self).debug,
            final(self).opt_level == old(self).opt_level,
            final(self).target == old(self).target,
    {
        self.cargo_metadata = metadata;
    }

    /// The debug setting, or `env_debug` where none was set.
    pub fn get_debug(&self, env_debug: bool) -> (r: bool)
        ensures
            r == match self.debug {
                Some(d) => d,
                None => env_debug,
            },
    {
        match self.debug {
            Some(d) => d,
            None => env_debug,
        }
    }

    /// The optimisation level, or `env_opt_level` where none was set.
    pub fn get_opt_level(&self, env_opt_level: u32) -> (r: u32)
        ensures
            r == match self.opt_level {
                Some(o) => o,
                None => env_opt_level,
            },
    {
        match self.opt_level {
            Some(o) => o,
            None => env_opt_level,
        }
    }

    /// The compiler flags for this configuration, with the environment's
    /// debug and optimisation settings used where none was set.
    pub fn default_args(&self, env_debug: bool, env_opt_level: u32, pic: bool) -> (r: Vec<String>)
        ensures
            r@.map_values(|s: String| s@) == args_spec(
                match self.debug {
                    Some(d) => d,
                    None => env_debug,
                },
                match self.opt_level {
                    Some(o) => o,
                    None => env_opt_level,
                },
                pic,
            ),
    {
        let debug = self.get_debug(env_debug);
        let opt_level = self.get_opt_level(env_opt_level);
        ispc_args(debug, opt_level, pic)
    }
}

} // verus!
