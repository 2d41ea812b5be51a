//! The cargo invocation that builds a package for analysis.
use vstd::prelude::*;
use crate::text::{join, join_spec, owned, texts};

verus! {

/// What to build: the package, its features, the target and extra rustc arguments.
#[derive(Debug, Clone, PartialEq, Eq)]
pub struct CargoAnalyzePlan {
    pub package: Option<String>,
    pub features: Vec<String>,
    pub target: Option<String>,
    pub rustc_args: Vec<String>,
}

impl CargoAnalyzePlan {
    /// The words of the command: `cargo check --message-format=json`, then
    /// `-p <package>`, `--features <f1,f2,..>` and `--target <target>` where given.
    pub open spec fn command_words(self) -> Seq<Seq<char>> {
        seq!["cargo"@, "check"@, "--message-format=json"@] + match self.package {
            Some(p) => seq!["-p"@, p@],
            None => Seq::empty(),
        } + if self.features@.len() > 0 {
            seq!["--features"@, join_spec(texts(self.features@), ","@)]
        } else {
            Seq::empty()
        } + match self.target {
            Some(t) => seq!["--target"@, t@],
            None => Seq::empty(),
        }
    }

    pub fn to_cargo_command(&self) -> (r: Vec<String>)
        ensures
            texts(r@) == self.command_words(),
    {
        let mut cmd: Vec<String> = Vec::new();
        cmd.push(owned("cargo"));
        cmd.push(owned("check"));
        cmd.push(owned("--message-format=json"));
        let ghost w0 = texts(cmd@);
        assert(w0 =~= seq!["cargo"@, "check"@, "--message-format=json"@]);
        if let Some(pkg) = &self.package {
            cmd.push(owned("-p"));
            cmd.push(pkg.clone());
        }
        let ghost w1 = texts(cmd@);
        assert(w1 =~= w0 + match self.package {
            Some(p) => seq!["-p"@, p@],
            None => Seq::<Seq<char>>::empty(),
        });
        if self.features.len() > 0 {
            cmd.push(owned("--features"));
            cmd.push(join(&self.features, ","));
        }
        let ghost w2 = texts(cmd@);
        assert(w2 =~= w1 + if self.features@.len() > 0 {
            seq!["--features"@, join_spec(texts(self.features@), ","@)]
        } else {
            Seq::<Seq<char>>::empty()
        });
        if let Some(target) = &self.target {
            cmd.push(owned("--target"));
            cmd.push(target.clone());
        }
        assert(texts(cmd@) =~= w2 + match self.target {
            Some(t) => seq!["--target"@, t@],
            None => Seq::<Seq<char>>::empty(),
        });
        cmd
    }
}

} // verus!
