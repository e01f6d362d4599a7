//! `gai profile`: the script that times the loading of each module.
use vstd::prelude::*;
use crate::types::DiscoveredModule;
use crate::paths::{path_join, join_path};
use crate::sync::{sq_escape, spec_sq_escape};
use crate::text::push_str;

verus! {

/// The lines that time the sourcing of one module.
pub open spec fn profile_block(m: DiscoveredModule) -> Seq<char> {
    "t_start=$EPOCHREALTIME\n{ source '"@ + spec_sq_escape(path_join(m.path@, "init.zsh"@))
        + "'; } >/dev/null 2>&1\nt_end=$EPOCHREALTIME\necho \""@ + m.name()
        + ": $(( (t_end - t_start) * 1000 ))\"\n"@
}

/// The timing lines of the loaded modules, among the first `hi`, that have
/// an `init.zsh` (`has_init[i]`).
pub open spec fn profile_blocks(s: Seq<DiscoveredModule>, has_init: Seq<bool>, hi: int) -> Seq<char>
    decreases hi,
{
    if hi <= 0 {
        Seq::empty()
    } else {
        profile_blocks(s, has_init, hi - 1) + if s[hi - 1].status is Loaded && has_init[hi - 1] {
            profile_block(s[hi - 1])
        } else {
            Seq::empty()
        }
    }
}

/// The profiling script for the loaded modules that have an `init.zsh`.
pub fn generate_profile_script(modules: &Vec<DiscoveredModule>, has_init: &Vec<bool>) -> (r: String)
    requires
        has_init@.len() == modules@.len(),
    ensures
        r@ == "zmodload zsh/datetime\n"@ + "compdef() { : }\n"@ + profile_blocks(modules@, has_init@, modules@.len() as int),
{
    let mut script = String::new();
    push_str(&mut script, "zmodload zsh/datetime\n");
    push_str(&mut script, "compdef() { : }\n");
    let ghost head = script@;
    let mut i: usize = 0;
    while i < modules.len()
        invariant
            has_init@.len() == modules@.len(),
            i <= modules@.len(),
            head == "zmodload zsh/datetime\n"@ + "compdef() { : }\n"@,
            script@ == head + profile_blocks(modules@, has_init@, i as int),
        decreases modules.len() - i,
    {
        let m = &modules[i];
        if m.status.is_loaded() && has_init[i] {
            let p = join_path(m.path.as_str(), "init.zsh");
            let e = sq_escape(p.as_str());
            let mut block = String::new();
            push_str(&mut block, "t_start=$EPOCHREALTIME\n{ source '");
            push_str(&mut block, e.as_str());
            push_str(&mut block, "'; } >/dev/null 2>&1\nt_end=$EPOCHREALTIME\necho \"");
            push_str(&mut block, m.manifest.module.name.as_str());
            push_str(&mut block, ": $(( (t_end - t_start) * 1000 ))\"\n");
            push_str(&mut script, block.as_str());
        } else {
            assert(script@ == script@ + Seq::<char>::empty());
        }
        i += 1;
    }
    script
}

} // verus!
