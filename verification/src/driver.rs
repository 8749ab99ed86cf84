//! What the driver decides before it starts the compiler: where the system
//! root is, and which arguments the compiler gets.

use vstd::prelude::*;
use vstd::string::StringExecFns;

verus! {

/// The variables of the build environment that say where the toolchain is.
#[derive(Debug)]
pub struct BuildEnv {
    /// `RUSTC_STAGE`: set when the compiler itself is being built.
    pub rustc_stage: Option<String>,
    /// `RUSTUP_HOME`
    pub rustup_home: Option<String>,
    /// `MULTIRUST_HOME`
    pub multirust_home: Option<String>,
    /// `RUSTUP_TOOLCHAIN`
    pub rustup_toolchain: Option<String>,
    /// `MULTIRUST_TOOLCHAIN`
    pub multirust_toolchain: Option<String>,
    /// `RUST_SYSROOT`
    pub rust_sysroot: Option<String>,
}

/// The text of a string that may be missing.
pub open spec fn text(s: Option<String>) -> Option<Seq<char>> {
    match s {
        Some(t) => Some(t@),
        None => None,
    }
}

/// The texts of a list of strings.
pub open spec fn texts(list: Seq<String>) -> Seq<Seq<char>> {
    Seq::new(list.len(), |i: int| list[i]@)
}

/// The system root of the toolchain `toolchain` under the home directory `home`.
pub open spec fn toolchain_root(home: Seq<char>, toolchain: Seq<char>) -> Seq<char> {
    home + "/toolchains/"@ + toolchain
}

impl BuildEnv {
    /// The home directory of the toolchain manager, if the environment names one.
    pub open spec fn home(&self) -> Option<Seq<char>> {
        if self.rustup_home.is_some() {
            text(self.rustup_home)
        } else {
            text(self.multirust_home)
        }
    }

    /// The toolchain in use, if the environment names one.
    pub open spec fn toolchain(&self) -> Option<Seq<char>> {
        if self.rustup_toolchain.is_some() {
            text(self.rustup_toolchain)
        } else {
            text(self.multirust_toolchain)
        }
    }

    /// The environment says enough to name a system root, or says that none is needed.
    pub open spec fn names_sysroot(&self) -> bool {
        ||| self.rustc_stage.is_some()
        ||| (self.home().is_some() && self.toolchain().is_some())
        ||| self.rust_sysroot.is_some()
    }

    /// The system root to hand to the compiler: none while the compiler itself
    /// is being built; else the directory of the toolchain under the home of the
    /// toolchain manager, if both are named; else `RUST_SYSROOT`.
    pub open spec fn sysroot(&self) -> Option<Seq<char>> {
        if self.rustc_stage.is_some() {
            None
        } else if self.home().is_some() && self.toolchain().is_some() {
            Some(toolchain_root(self.home().unwrap(), self.toolchain().unwrap()))
        } else {
            text(self.rust_sysroot)
        }
    }

    /// Decides `names_sysroot`.
    pub fn can_name_sysroot(&self) -> (ok: bool)
        ensures
            ok == self.names_sysroot(),
    {
        self.rustc_stage.is_some() || ((self.rustup_home.is_some() || self.multirust_home.is_some())
            && (self.rustup_toolchain.is_some() || self.multirust_toolchain.is_some()))
            || self.rust_sysroot.is_some()
    }
}

/// The system root that the build environment names.
pub fn compile_time_sysroot(env: &BuildEnv) -> (sysroot: Option<String>)
    requires
        env.names_sysroot(),
    ensures
        text(sysroot) == env.sysroot(),
{
    if env.rustc_stage.is_some() {
        None
    } else {
        let home = if env.rustup_home.is_some() {
            &env.rustup_home
        } else {
            &env.multirust_home
        };
        let toolchain = if env.rustup_toolchain.is_some() {
            &env.rustup_toolchain
        } else {
            &env.multirust_toolchain
        };
        match (home, toolchain) {
            (Some(home), Some(toolchain)) => {
                let mut root = home.clone();
                root.append("/toolchains/");
                root.append(toolchain.as_str());
                Some(root)
            },
            _ => match &env.rust_sysroot {
                Some(root) => Some(root.clone()),
                None => None,
            },
        }
    }
}

/// The arguments for the compiler: those given, followed by `--sysroot` and
/// the system root if there is one and the arguments do not set it themselves.
pub open spec fn with_sysroot(args: Seq<Seq<char>>, sysroot: Option<Seq<char>>) -> Seq<Seq<char>> {
    match sysroot {
        Some(root) => if args.contains("--sysroot"@) {
            args
        } else {
            args.push("--sysroot"@).push(root)
        },
        None => args,
    }
}

/// The arguments for the compiler, with the system root added where it is
/// known and not set already.
pub fn sysroot_args(args: Vec<String>, sysroot: Option<String>) -> (all: Vec<String>)
    ensures
        texts(all@) == with_sysroot(texts(args@), text(sysroot)),
{
    let mut args = args;
    let ghost given = texts(args@);
    if let Some(sysroot) = sysroot {
        let sysroot_flag = String::from_str("--sysroot");
        let mut found = false;
        let mut i: usize = 0;
        while i < args.len() && !found
            invariant
                i <= args@.len(),
                given == texts(args@),
                sysroot_flag@ == "--sysroot"@,
                found ==> given.contains("--sysroot"@),
                !found ==> forall|k: int| 0 <= k < i ==> given[k] != "--sysroot"@,
            decreases args@.len() - i + if found { 0int } else { 1int },
        {
            if args[i] == sysroot_flag {
                found = true;
                assert(given[i as int] == "--sysroot"@);
            } else {
                i = i + 1;
            }
        }
        if !found {
            args.push(sysroot_flag);
            args.push(sysroot);
            assert(texts(args@) =~= given.push("--sysroot"@).push(sysroot@));
        }
    }
    args
}

} // verus!
