//! Project configuration.
//!
//! A project file names the project and the providers it uses. Reading and
//! parsing the file is I/O and lives outside the library; the parsed values
//! are held here.

use vstd::prelude::*;

verus! {

/// The name and version of the project itself.
#[derive(Debug)]
pub struct ProjectConfig {
    pub name: String,
    pub version: String,
}

/// One provider requirement: where it comes from and which version.
#[derive(Debug)]
pub struct ProviderConfig {
    pub name: String,
    pub source: String,
    pub version: String,
}

/// A whole project configuration.
#[derive(Debug)]
pub struct Config {
    pub project: ProjectConfig,
    pub providers: Vec<ProviderConfig>,
}

impl Config {
    /// Look up a provider requirement by name.
    pub fn provider_named(&self, name: &String) -> (r: Option<&ProviderConfig>)
        ensures
            match r {
                Some(p) => exists|i: int|
                    0 <= i < self.providers@.len() && (#[trigger] self.providers@[i]).name@
                        == name@ && p.name@ == name@,
                None => forall|i: int|
                    0 <= i < self.providers@.len() ==> (#[trigger] self.providers@[i]).name@
                        != name@,
            },
    {
        let n = self.providers.len();
        let mut i: usize = 0;
        while i < n
            invariant
                n == self.providers@.len(),
                0 <= i <= n,
                forall|j: int| 0 <= j < i ==> (#[trigger] self.providers@[j]).name@ != name@,
            decreases n - i,
        {
            let p = &self.providers[i];
            if p.name == *name {
                return Some(p);
            }
            i = i + 1;
        }
        None
    }
}

} // verus!
