//! `gai path`: where a module's `init.zsh` is.
use vstd::prelude::*;
use crate::types::DiscoveredModule;
use crate::paths::{path_join, join_path};
use crate::rename::{first_called, find_module};
use crate::text::push_str;

verus! {

/// The `init.zsh` of the first module called `module_name`, or the message
/// for a module that is not there.
pub fn module_init_path(modules: &Vec<DiscoveredModule>, module_name: &str) -> (r: Result<String, String>)
    ensures
        match r {
            Ok(p) => first_called(modules@, module_name@) >= 0
                && p@ == path_join(modules@[first_called(modules@, module_name@)].path@, "init.zsh"@),
            Err(e) => first_called(modules@, module_name@) == -1 && e@ == "Module '"@ + module_name@ + "' not found."@,
        },
{
    match find_module(modules, module_name) {
        Some(i) => Ok(join_path(modules[i].path.as_str(), "init.zsh")),
        None => {
            let mut msg = String::new();
            push_str(&mut msg, "Module '");
            push_str(&mut msg, module_name);
            push_str(&mut msg, "' not found.");
            Err(msg)
        },
    }
}

} // verus!
