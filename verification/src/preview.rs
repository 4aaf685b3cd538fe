//! The one piece of preview handling that is plain logic: which asset
//! types support preview generation at all.

use vstd::prelude::*;
use vstd::string::StringExecFns;

verus! {

/// The asset types a preview can be generated for.
pub open spec fn previewable(s: Seq<char>) -> bool {
    ||| s == "texture"@
    ||| s == "image"@
    ||| s == "audio"@
    ||| s == "sound"@
    ||| s == "mesh"@
    ||| s == "static_mesh"@
    ||| s == "skeletal_mesh"@
    ||| s == "text"@
    ||| s == "script"@
    ||| s == "config"@
}

/// Determines whether an asset type supports preview generation.
pub fn supports_preview(asset_type: &str) -> (r: bool)
    ensures
        r == previewable(asset_type@),
{
    let t = String::from_str(asset_type);
    t == String::from_str("texture") || t == String::from_str("image") || t == String::from_str(
        "audio",
    ) || t == String::from_str("sound") || t == String::from_str("mesh") || t == String::from_str(
        "static_mesh",
    ) || t == String::from_str("skeletal_mesh") || t == String::from_str("text") || t
        == String::from_str("script") || t == String::from_str("config")
}

} // verus!
