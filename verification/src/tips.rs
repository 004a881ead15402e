//! The tips the daemon currently holds.

use vstd::prelude::*;

use crate::agents::{Tip, TipView};
use crate::config::{join_path, store_json, PluginPaths, StorePlan};
use crate::text::views;

verus! {

/// Tips the daemon currently holds; rendered by the report pane.
#[derive(Clone, Debug)]
pub struct Tips {
    pub generated_at_ms: u64,
    pub items: Vec<Tip>,
}

/// The tips with their texts as sequences of characters.
#[verifier::ext_equal]
pub struct TipsView {
    pub generated_at_ms: u64,
    pub items: Seq<TipView>,
}

impl View for Tips {
    type V = TipsView;

    open spec fn view(&self) -> TipsView {
        TipsView { generated_at_ms: self.generated_at_ms, items: views(self.items@) }
    }
}

impl Default for Tips {
    fn default() -> (r: Tips)
        ensures
            r.generated_at_ms == 0,
            r.items@.len() == 0,
    {
        Tips { generated_at_ms: 0, items: Vec::new() }
    }
}

/// Where the tips are kept.
pub fn tips_path(paths: &PluginPaths) -> (r: String)
    ensures
        r@ == paths.file("tips.json"@),
{
    join_path(paths.state_dir.as_str(), "tips.json")
}

/// The plan for writing the tips.
pub fn store(paths: &PluginPaths) -> (r: StorePlan)
    ensures
        r.replaces(paths.file("tips.json"@)),
{
    store_json(tips_path(paths))
}

} // verus!
