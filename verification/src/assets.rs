//! The files the editor serves: the embedded UI assets, found by path, and
//! the UI bundles the linked plugins declare, each served under a
//! per-plugin path.

use vstd::prelude::*;
use vstd::string::StrSliceExecFns;
use vstd::string::StringExecFns;
use crate::registry::Registry;
use crate::text::same_text;

verus! {

/// One served file: its path, content type, and body.
pub struct Asset {
    pub path: String,
    pub content_type: String,
    pub body: String,
}

/// The asset of `assets` served at `path`: the first whose path it is.
pub open spec fn asset_index(assets: Seq<Asset>, path: Seq<char>) -> int
    decreases assets.len(),
{
    if assets.len() == 0 {
        0
    } else if assets[0].path@ == path {
        0
    } else {
        1 + asset_index(assets.drop_first(), path)
    }
}

proof fn lemma_asset_index(assets: Seq<Asset>, path: Seq<char>)
    ensures
        0 <= asset_index(assets, path) <= assets.len(),
        asset_index(assets, path) < assets.len() ==> assets[asset_index(assets, path)].path@ == path,
        forall|j: int| 0 <= j < asset_index(assets, path) ==> (#[trigger] assets[j]).path@ != path,
    decreases assets.len(),
{
    if assets.len() > 0 && assets[0].path@ != path {
        lemma_asset_index(assets.drop_first(), path);
        assert forall|j: int| 0 <= j < asset_index(assets, path) implies (#[trigger] assets[j]).path@ != path by {
            if j > 0 {
                assert(assets[j] == assets.drop_first()[j - 1]);
            }
        }
        if asset_index(assets, path) < assets.len() {
            assert(assets[asset_index(assets, path)] == assets.drop_first()[asset_index(assets, path) - 1]);
        }
    }
}

/// The asset served at `path`, if there is one.
pub fn find<'a>(assets: &'a Vec<Asset>, path: &str) -> (found: Option<&'a Asset>)
    ensures
        match found {
            Some(asset) => asset_index(assets@, path@) < assets@.len() && *asset == assets@[asset_index(assets@, path@)],
            None => asset_index(assets@, path@) == assets@.len(),
        },
{
    proof {
        lemma_asset_index(assets@, path@);
    }
    let mut i: usize = 0;
    while i < assets.len()
        invariant
            i <= assets.len(),
            forall|j: int| 0 <= j < i ==> (#[trigger] assets@[j]).path@ != path@,
            0 <= asset_index(assets@, path@) <= assets@.len(),
            asset_index(assets@, path@) < assets@.len() ==> assets@[asset_index(assets@, path@)].path@ == path@,
            forall|j: int| 0 <= j < asset_index(assets@, path@) ==> (#[trigger] assets@[j]).path@ != path@,
        decreases assets.len() - i,
    {
        if same_text(assets[i].path.as_str(), path) {
            return Some(&assets[i]);
        }
        i = i + 1;
    }
    None
}

/// One plugin-declared UI bundle: the served path, `/plugins/<entry>`, its
/// content type, and the body the declaring crate embedded.
pub struct PluginAsset {
    pub path: String,
    pub content_type: String,
    pub body: String,
}

/// The extension an entry serves by: what follows its last `.`, or the
/// whole entry when it has none.
pub open spec fn extension(entry: Seq<char>) -> Seq<char>
    decreases entry.len(),
{
    if entry.len() == 0 {
        entry
    } else if entry.last() == '.' {
        Seq::empty()
    } else if !entry.drop_last().contains('.') {
        entry
    } else {
        extension(entry.drop_last()).push(entry.last())
    }
}

/// The content type an extension serves as.
pub open spec fn content_type_of(extension: Seq<char>) -> Seq<char> {
    if extension == "js"@ || extension == "mjs"@ {
        "text/javascript; charset=utf-8"@
    } else if extension == "css"@ {
        "text/css; charset=utf-8"@
    } else if extension == "html"@ {
        "text/html; charset=utf-8"@
    } else if extension == "json"@ {
        "application/json"@
    } else if extension == "svg"@ {
        "image/svg+xml"@
    } else {
        "application/octet-stream"@
    }
}

/// The position of the last `.` in `text`, or none.
fn last_dot(text: &str) -> (found: Option<usize>)
    ensures
        match found {
            Some(i) => i < text@.len() && text@[i as int] == '.' && forall|j: int| i < j < text@.len() ==> text@[j] != '.',
            None => !text@.contains('.'),
        },
{
    let length = text.unicode_len();
    let mut i = length;
    while i > 0
        invariant
            i <= length,
            length == text@.len(),
            forall|j: int| i <= j < text@.len() ==> text@[j] != '.',
        decreases i,
    {
        i = i - 1;
        if text.get_char(i) == '.' {
            return Some(i);
        }
    }
    None
}

proof fn lemma_extension(entry: Seq<char>, dot: int)
    requires
        0 <= dot < entry.len(),
        entry[dot] == '.',
        forall|j: int| dot < j < entry.len() ==> entry[j] != '.',
    ensures
        extension(entry) == entry.subrange(dot + 1, entry.len() as int),
    decreases entry.len(),
{
    if dot < entry.len() - 1 {
        let shorter = entry.drop_last();
        assert(shorter[dot] == '.');
        assert(shorter.contains('.'));
        lemma_extension(shorter, dot);
        assert(extension(entry) =~= entry.subrange(dot + 1, entry.len() as int));
    } else {
        assert(entry.subrange(dot + 1, entry.len() as int) =~= Seq::<char>::empty());
    }
}

proof fn lemma_no_extension(entry: Seq<char>)
    requires
        !entry.contains('.'),
    ensures
        extension(entry) == entry,
{
    if entry.len() > 0 {
        assert(entry.last() != '.') by {
            if entry.last() == '.' {
                assert(entry[entry.len() - 1] == '.');
            }
        }
        assert(!entry.drop_last().contains('.')) by {
            if entry.drop_last().contains('.') {
                let j = choose|j: int| 0 <= j < entry.drop_last().len() && entry.drop_last()[j] == '.';
                assert(entry[j] == '.');
            }
        }
    }
}

/// The extension of a stem, a `.` and a text without a `.` is that text.
proof fn lemma_extension_after(stem: Seq<char>, ext: Seq<char>)
    requires
        !ext.contains('.'),
    ensures
        extension(stem.push('.') + ext) == ext,
{
    let entry = stem.push('.') + ext;
    let dot = stem.len() as int;
    assert(entry[dot] == '.');
    assert forall|j: int| dot < j < entry.len() implies entry[j] != '.' by {
        assert(entry[j] == ext[j - dot - 1]);
        if ext[j - dot - 1] == '.' {
            assert(ext.contains('.'));
        }
    }
    lemma_extension(entry, dot);
    assert(entry.subrange(dot + 1, entry.len() as int) =~= ext);
}

/// Whatever an entry's stem, a known extension serves as its fixed type:
/// `js` and `mjs` as JavaScript, `css`, `html`, `json` and `svg` as their
/// own types, and any other, such as `wasm`, as plain bytes.
pub proof fn law_content_types(stem: Seq<char>)
    ensures
        content_type_of(extension(stem.push('.') + "js"@)) == "text/javascript; charset=utf-8"@,
        content_type_of(extension(stem.push('.') + "mjs"@)) == "text/javascript; charset=utf-8"@,
        content_type_of(extension(stem.push('.') + "css"@)) == "text/css; charset=utf-8"@,
        content_type_of(extension(stem.push('.') + "html"@)) == "text/html; charset=utf-8"@,
        content_type_of(extension(stem.push('.') + "json"@)) == "application/json"@,
        content_type_of(extension(stem.push('.') + "svg"@)) == "image/svg+xml"@,
        content_type_of(extension(stem.push('.') + "wasm"@)) == "application/octet-stream"@,
{
    reveal_strlit("js");
    reveal_strlit("mjs");
    reveal_strlit("css");
    reveal_strlit("html");
    reveal_strlit("json");
    reveal_strlit("svg");
    reveal_strlit("wasm");
    assert(!"js"@.contains('.'));
    assert(!"mjs"@.contains('.'));
    assert(!"css"@.contains('.'));
    assert(!"html"@.contains('.'));
    assert(!"json"@.contains('.'));
    assert(!"svg"@.contains('.'));
    assert(!"wasm"@.contains('.'));
    lemma_extension_after(stem, "js"@);
    lemma_extension_after(stem, "mjs"@);
    lemma_extension_after(stem, "css"@);
    lemma_extension_after(stem, "html"@);
    lemma_extension_after(stem, "json"@);
    lemma_extension_after(stem, "svg"@);
    lemma_extension_after(stem, "wasm"@);
    assert("css"@[0] != "mjs"@[0]);
    assert("html"@[0] != "json"@[0]);
    assert("svg"@[0] != "mjs"@[0]);
    assert("svg"@[0] != "css"@[0]);
    assert("json"@.len() != "js"@.len() && "json"@.len() != "mjs"@.len() && "json"@.len() != "css"@.len());
    assert("wasm"@[0] != "html"@[0] && "wasm"@[0] != "json"@[0]);
}

/// The content type an entry serves as, read off its extension.
pub fn content_type(entry: &str) -> (served: &'static str)
    ensures
        served@ == content_type_of(extension(entry@)),
        extension(entry@) == "js"@ ==> served@ == "text/javascript; charset=utf-8"@,
        extension(entry@) == "mjs"@ ==> served@ == "text/javascript; charset=utf-8"@,
        extension(entry@) == "css"@ ==> served@ == "text/css; charset=utf-8"@,
        extension(entry@) == "html"@ ==> served@ == "text/html; charset=utf-8"@,
        extension(entry@) == "json"@ ==> served@ == "application/json"@,
        extension(entry@) == "svg"@ ==> served@ == "image/svg+xml"@,
        extension(entry@) != "js"@ && extension(entry@) != "mjs"@ && extension(entry@) != "css"@
            && extension(entry@) != "html"@ && extension(entry@) != "json"@ && extension(entry@) != "svg"@
            ==> served@ == "application/octet-stream"@,
{
    let length = entry.unicode_len();
    let extension_text = match last_dot(entry) {
        Some(dot) => {
            proof {
                lemma_extension(entry@, dot as int);
            }
            entry.substring_char(dot + 1, length)
        },
        None => {
            proof {
                lemma_no_extension(entry@);
            }
            entry
        },
    };
    proof {
        reveal_strlit("js");
        reveal_strlit("mjs");
        reveal_strlit("css");
        reveal_strlit("html");
        reveal_strlit("json");
        reveal_strlit("svg");
        assert("css"@[0] != "mjs"@[0]);
        assert("html"@[0] != "json"@[0]);
        assert("svg"@[0] != "mjs"@[0]);
        assert("svg"@[0] != "css"@[0]);
        assert("json"@.len() != "js"@.len() && "json"@.len() != "mjs"@.len() && "json"@.len() != "css"@.len());
    }
    if same_text(extension_text, "js") || same_text(extension_text, "mjs") {
        "text/javascript; charset=utf-8"
    } else if same_text(extension_text, "css") {
        "text/css; charset=utf-8"
    } else if same_text(extension_text, "html") {
        "text/html; charset=utf-8"
    } else if same_text(extension_text, "json") {
        "application/json"
    } else if same_text(extension_text, "svg") {
        "image/svg+xml"
    } else {
        "application/octet-stream"
    }
}

/// The served path of a declared entry.
pub open spec fn served_path(entry: Seq<char>) -> Seq<char> {
    "/plugins/"@ + entry
}

/// Declare one bundle: its served path must be free.
fn declare(assets: &mut Vec<PluginAsset>, declarers: &mut Vec<String>, entry: &String, source: &String, declared: String) -> (refused: Option<String>)
    requires
        old(assets)@.len() == old(declarers)@.len(),
    ensures
        final(assets)@.len() == final(declarers)@.len(),
        match refused {
            Some(message) => {
                &&& exists|j: int| 0 <= j < old(assets)@.len() && (#[trigger] old(assets)@[j]).path@ == served_path(entry@)
                    && message@ == "duplicate plugin UI asset `"@ + served_path(entry@) + "`: named by both "@ + old(declarers)@[j]@ + " and "@ + declared@
                &&& final(declarers)@ == old(declarers)@
            },
            None => {
                &&& final(declarers)@ == old(declarers)@.push(declared)
                &&& forall|j: int| 0 <= j < old(assets)@.len() ==> (#[trigger] old(assets)@[j]).path@ != served_path(entry@)
                &&& final(assets)@.len() == old(assets)@.len() + 1
                &&& final(assets)@.subrange(0, old(assets)@.len() as int) == old(assets)@
                &&& final(assets)@.last().path@ == served_path(entry@)
                &&& final(assets)@.last().content_type@ == content_type_of(extension(entry@))
                &&& final(assets)@.last().body@ == source@
            },
        },
{
    let mut path = "/plugins/".to_owned();
    path.append(entry.as_str());
    let mut j: usize = 0;
    while j < assets.len()
        invariant
            j <= assets.len(),
            assets@.len() == declarers@.len(),
            path@ == served_path(entry@),
            forall|m: int| 0 <= m < j ==> (#[trigger] assets@[m]).path@ != path@,
        decreases assets.len() - j,
    {
        if same_text(assets[j].path.as_str(), path.as_str()) {
            let mut message = "duplicate plugin UI asset `".to_owned();
            message.append(path.as_str());
            message.append("`: named by both ");
            message.append(declarers[j].as_str());
            message.append(" and ");
            message.append(declared.as_str());
            return Some(message);
        }
        j = j + 1;
    }
    let ghost before = assets@;
    let content_type_text = content_type(entry.as_str()).to_owned();
    assets.push(PluginAsset { path, content_type: content_type_text, body: source.clone() });
    declarers.push(declared);
    assert(assets@.subrange(0, before.len() as int) =~= before);
    None
}

/// The UI bundles the node types declare, as entry, source and the
/// declaration naming it, in order.
pub open spec fn node_bundles(types: Seq<crate::model::NodeType>) -> Seq<(Seq<char>, Seq<char>, Seq<char>)>
    decreases types.len(),
{
    if types.len() == 0 {
        Seq::empty()
    } else {
        let rest = node_bundles(types.drop_last());
        match types.last().ui {
            Some(ui) => rest.push((ui.entry@, ui.source@, "node type "@ + types.last().type_ref@)),
            None => rest,
        }
    }
}

/// The UI bundles the data types declare, as entry, source and the
/// declaration naming it, in order.
pub open spec fn data_bundles(types: Seq<crate::model::DataType>) -> Seq<(Seq<char>, Seq<char>, Seq<char>)>
    decreases types.len(),
{
    if types.len() == 0 {
        Seq::empty()
    } else {
        let rest = data_bundles(types.drop_last());
        match types.last().ui {
            Some(ui) => rest.push((ui.entry@, ui.source@, "data type "@ + types.last().name@)),
            None => rest,
        }
    }
}

/// Every declared bundle: the node types', then the data types'.
pub open spec fn bundles(registry: Registry) -> Seq<(Seq<char>, Seq<char>, Seq<char>)> {
    node_bundles(registry.node_types@) + data_bundles(registry.data_types@)
}

/// No two bundles name the same entry.
pub open spec fn entries_distinct(bundles: Seq<(Seq<char>, Seq<char>, Seq<char>)>) -> bool {
    forall|a: int, b: int| 0 <= a < b < bundles.len() ==> (#[trigger] bundles[a]).0 != (#[trigger] bundles[b]).0
}

/// The assets serve the bundles, one each, in order.
pub open spec fn serves(served: Seq<PluginAsset>, bundles: Seq<(Seq<char>, Seq<char>, Seq<char>)>) -> bool {
    &&& served.len() == bundles.len()
    &&& forall|i: int| 0 <= i < served.len() ==> {
        &&& (#[trigger] served[i]).path@ == served_path(bundles[i].0)
        &&& served[i].content_type@ == content_type_of(extension(bundles[i].0))
        &&& served[i].body@ == bundles[i].1
    }
}

/// The refusal of a bundle `b` whose entry an earlier bundle `a` already
/// declared, naming both declarations.
pub open spec fn duplicate_message(bundles: Seq<(Seq<char>, Seq<char>, Seq<char>)>, a: int, b: int) -> Seq<char> {
    "duplicate plugin UI asset `"@ + served_path(bundles[b].0) + "`: named by both "@ + bundles[a].2 + " and "@ + bundles[b].2
}

/// The first bundle `b` to repeat an entry, with the earlier bundle `a`
/// it repeats.
pub open spec fn first_repeat(bundles: Seq<(Seq<char>, Seq<char>, Seq<char>)>, a: int, b: int) -> bool {
    &&& 0 <= a < b < bundles.len()
    &&& bundles[a].0 == bundles[b].0
    &&& entries_distinct(bundles.take(b))
}

proof fn lemma_served_path_injective(a: Seq<char>, b: Seq<char>)
    requires
        served_path(a) == served_path(b),
    ensures
        a == b,
{
    reveal_strlit("/plugins/");
    assert(a =~= served_path(a).subrange(9, served_path(a).len() as int));
    assert(b =~= served_path(b).subrange(9, served_path(b).len() as int));
}

proof fn lemma_node_bundles_prefix(types: Seq<crate::model::NodeType>, i: int)
    requires
        0 <= i <= types.len(),
    ensures
        node_bundles(types.subrange(0, i)).len() <= node_bundles(types).len(),
        node_bundles(types).subrange(0, node_bundles(types.subrange(0, i)).len() as int) == node_bundles(types.subrange(0, i)),
    decreases types.len() - i,
{
    if i < types.len() {
        lemma_node_bundles_prefix(types, i + 1);
        assert(types.subrange(0, i + 1).drop_last() =~= types.subrange(0, i));
        let shorter = node_bundles(types.subrange(0, i));
        let longer = node_bundles(types.subrange(0, i + 1));
        let full = node_bundles(types);
        assert(longer.subrange(0, shorter.len() as int) =~= shorter);
        assert(full.subrange(0, shorter.len() as int) =~= longer.subrange(0, shorter.len() as int));
    } else {
        assert(types.subrange(0, i) =~= types);
        assert(node_bundles(types).subrange(0, node_bundles(types).len() as int) =~= node_bundles(types));
    }
}

proof fn lemma_data_bundles_prefix(types: Seq<crate::model::DataType>, i: int)
    requires
        0 <= i <= types.len(),
    ensures
        data_bundles(types.subrange(0, i)).len() <= data_bundles(types).len(),
        data_bundles(types).subrange(0, data_bundles(types.subrange(0, i)).len() as int) == data_bundles(types.subrange(0, i)),
    decreases types.len() - i,
{
    if i < types.len() {
        lemma_data_bundles_prefix(types, i + 1);
        assert(types.subrange(0, i + 1).drop_last() =~= types.subrange(0, i));
        let shorter = data_bundles(types.subrange(0, i));
        let longer = data_bundles(types.subrange(0, i + 1));
        let full = data_bundles(types);
        assert(longer.subrange(0, shorter.len() as int) =~= shorter);
        assert(full.subrange(0, shorter.len() as int) =~= longer.subrange(0, shorter.len() as int));
    } else {
        assert(types.subrange(0, i) =~= types);
        assert(data_bundles(types).subrange(0, data_bundles(types).len() as int) =~= data_bundles(types));
    }
}

/// A list whose prefix names one entry twice names it twice.
proof fn lemma_repeat_in_prefix(full: Seq<(Seq<char>, Seq<char>, Seq<char>)>, prefix: Seq<(Seq<char>, Seq<char>, Seq<char>)>, a: int, b: int)
    requires
        prefix.len() <= full.len(),
        full.subrange(0, prefix.len() as int) == prefix,
        0 <= a < b < prefix.len(),
        prefix[a].0 == prefix[b].0,
    ensures
        !entries_distinct(full),
{
    assert(full[a] == prefix[a]);
    assert(full[b] == prefix[b]);
}

/// Every plugin-declared UI bundle of the linked plugins, node-type UI and
/// data-type UI alike, served the one way, under its own path, in
/// declaration order. Two declarations naming the same entry is a conflict
/// no server can answer honestly: a caller rules it out first, with
/// `checked_assets`, which names both declarations.
pub fn plugin_assets(registry: &Registry) -> (assets: Vec<PluginAsset>)
    requires
        entries_distinct(bundles(*registry)),
    ensures
        forall|a: int, b: int| 0 <= a < b < assets@.len() ==> (#[trigger] assets@[a]).path@ != (#[trigger] assets@[b]).path@,
        serves(assets@, bundles(*registry)),
{
    match checked_assets(registry) {
        Ok(assets) => assets,
        Err(_) => {
            proof {
                assert(false);
            }
            Vec::new()
        },
    }
}

/// The bundles `plugin_assets` serves, or, where two declarations name the
/// same entry, the conflict naming both declarations.
#[verifier::spinoff_prover]
pub fn checked_assets(registry: &Registry) -> (assets: Result<Vec<PluginAsset>, String>)
    ensures
        match assets {
            Ok(served) => forall|a: int, b: int| 0 <= a < b < served@.len() ==> (#[trigger] served@[a]).path@ != (#[trigger] served@[b]).path@,
            Err(_) => true,
        },
        match assets {
            Ok(served) => entries_distinct(bundles(*registry)) && serves(served@, bundles(*registry)),
            Err(_) => !entries_distinct(bundles(*registry)),
        },
        match assets {
            Ok(_) => true,
            Err(message) => exists|a: int, b: int| #[trigger] first_repeat(bundles(*registry), a, b)
                && message@ == duplicate_message(bundles(*registry), a, b),
        },
{
    let mut assets: Vec<PluginAsset> = Vec::new();
    let mut declarers: Vec<String> = Vec::new();
    let mut i: usize = 0;
    while i < registry.node_types.len()
        invariant
            i <= registry.node_types@.len(),
            assets@.len() == declarers@.len(),
            forall|a: int, b: int| 0 <= a < b < assets@.len() ==> (#[trigger] assets@[a]).path@ != (#[trigger] assets@[b]).path@,
            serves(assets@, node_bundles(registry.node_types@.subrange(0, i as int))),
            forall|k: int| 0 <= k < declarers@.len() ==> (#[trigger] declarers@[k])@ == node_bundles(registry.node_types@.subrange(0, i as int))[k].2,
            entries_distinct(node_bundles(registry.node_types@.subrange(0, i as int))),
        decreases registry.node_types.len() - i,
    {
        let ghost done_before = node_bundles(registry.node_types@.subrange(0, i as int));
        proof {
            assert(registry.node_types@.subrange(0, i + 1).drop_last() =~= registry.node_types@.subrange(0, i as int));
            assert(registry.node_types@.subrange(0, i + 1).last() == registry.node_types@[i as int]);
        }
        match &registry.node_types[i].ui {
            Some(ui) => {
                let mut declared = "node type ".to_owned();
                declared.append(registry.node_types[i].type_ref.as_str());
                let ghost before = assets@;
                let ghost declarers_before = declarers@;
                let ghost declared_view = declared@;
                match declare(&mut assets, &mut declarers, &ui.entry, &ui.source, declared) {
                    Some(message) => {
                        proof {
                            let j = choose|j: int| 0 <= j < before.len() && (#[trigger] before[j]).path@ == served_path(ui.entry@)
                                && message@ == "duplicate plugin UI asset `"@ + served_path(ui.entry@) + "`: named by both "@ + declarers_before[j]@ + " and "@ + declared_view;
                            lemma_served_path_injective(done_before[j].0, ui.entry@);
                            let now = node_bundles(registry.node_types@.subrange(0, i + 1));
                            assert(now[j] == done_before[j]);
                            assert(now[done_before.len() as int].0 == ui.entry@);
                            lemma_node_bundles_prefix(registry.node_types@, i + 1);
                            let all = bundles(*registry);
                            let whole = node_bundles(registry.node_types@);
                            assert(whole.subrange(0, now.len() as int) == now);
                            assert forall|k: int| 0 <= k < now.len() implies #[trigger] all.subrange(0, now.len() as int)[k] == now[k] by {
                                assert(all[k] == whole[k]);
                                assert(whole.subrange(0, now.len() as int)[k] == now[k]);
                            }
                            assert(all.subrange(0, now.len() as int) =~= now);
                            lemma_repeat_in_prefix(all, now, j, done_before.len() as int);
                            let b = done_before.len() as int;
                            assert(all[j] == now[j] && all[b] == now[b]);
                            assert(now.take(b) =~= done_before);
                            assert(all.take(b) =~= now.take(b)) by {
                                assert forall|k: int| 0 <= k < b implies all.take(b)[k] == now.take(b)[k] by {
                                    assert(all.subrange(0, now.len() as int)[k] == now[k]);
                                }
                            }
                            assert(first_repeat(all, j, b));
                            assert(message@ == duplicate_message(all, j, b));
                        }
                        return Err(message);
                    },
                    None => {
                        assert forall|a: int, b: int| 0 <= a < b < assets@.len() implies (#[trigger] assets@[a]).path@ != (#[trigger] assets@[b]).path@ by {
                            if b < before.len() {
                                assert(assets@[a] == before[a] && assets@[b] == before[b]);
                            } else {
                                assert(assets@[a] == before[a]);
                            }
                        }
                        proof {
                            let now = node_bundles(registry.node_types@.subrange(0, i + 1));
                            assert forall|a: int, b: int| 0 <= a < b < now.len() implies (#[trigger] now[a]).0 != (#[trigger] now[b]).0 by {
                                if b == done_before.len() {
                                    assert(before[a].path@ != served_path(ui.entry@));
                                    assert(now[a] == done_before[a]);
                                } else {
                                    assert(now[a] == done_before[a] && now[b] == done_before[b]);
                                }
                            }
                            assert forall|k: int| 0 <= k < assets@.len() implies {
                                &&& (#[trigger] assets@[k]).path@ == served_path(now[k].0)
                                &&& assets@[k].content_type@ == content_type_of(extension(now[k].0))
                                &&& assets@[k].body@ == now[k].1
                            } by {
                                if k < before.len() {
                                    assert(assets@[k] == before[k]);
                                    assert(now[k] == done_before[k]);
                                }
                            }
                        }
                    },
                }
            },
            None => {
                assert(node_bundles(registry.node_types@.subrange(0, i + 1)) == done_before);
            },
        }
        i = i + 1;
    }
    assert(registry.node_types@.subrange(0, registry.node_types@.len() as int) =~= registry.node_types@);
    let ghost firsts = node_bundles(registry.node_types@);
    let mut i: usize = 0;
    assert(data_bundles(registry.data_types@.subrange(0, 0)) =~= Seq::<(Seq<char>, Seq<char>, Seq<char>)>::empty());
    assert(firsts + data_bundles(registry.data_types@.subrange(0, 0)) =~= firsts);
    while i < registry.data_types.len()
        invariant
            i <= registry.data_types@.len(),
            firsts == node_bundles(registry.node_types@),
            assets@.len() == declarers@.len(),
            forall|a: int, b: int| 0 <= a < b < assets@.len() ==> (#[trigger] assets@[a]).path@ != (#[trigger] assets@[b]).path@,
            serves(assets@, firsts + data_bundles(registry.data_types@.subrange(0, i as int))),
            forall|k: int| 0 <= k < declarers@.len() ==> (#[trigger] declarers@[k])@ == (firsts + data_bundles(registry.data_types@.subrange(0, i as int)))[k].2,
            entries_distinct(firsts + data_bundles(registry.data_types@.subrange(0, i as int))),
        decreases registry.data_types.len() - i,
    {
        let ghost done_before = firsts + data_bundles(registry.data_types@.subrange(0, i as int));
        proof {
            assert(registry.data_types@.subrange(0, i + 1).drop_last() =~= registry.data_types@.subrange(0, i as int));
            assert(registry.data_types@.subrange(0, i + 1).last() == registry.data_types@[i as int]);
        }
        match &registry.data_types[i].ui {
            Some(ui) => {
                let mut declared = "data type ".to_owned();
                declared.append(registry.data_types[i].name.as_str());
                let ghost before = assets@;
                let ghost declarers_before = declarers@;
                let ghost declared_view = declared@;
                match declare(&mut assets, &mut declarers, &ui.entry, &ui.source, declared) {
                    Some(message) => {
                        proof {
                            let j = choose|j: int| 0 <= j < before.len() && (#[trigger] before[j]).path@ == served_path(ui.entry@)
                                && message@ == "duplicate plugin UI asset `"@ + served_path(ui.entry@) + "`: named by both "@ + declarers_before[j]@ + " and "@ + declared_view;
                            lemma_served_path_injective(done_before[j].0, ui.entry@);
                            let tail = data_bundles(registry.data_types@.subrange(0, i + 1));
                            let now = firsts + tail;
                            assert(now[j] == done_before[j]);
                            assert(now[done_before.len() as int].0 == ui.entry@);
                            lemma_data_bundles_prefix(registry.data_types@, i + 1);
                            let all = bundles(*registry);
                            let whole = data_bundles(registry.data_types@);
                            assert(whole.subrange(0, tail.len() as int) == tail);
                            assert forall|k: int| 0 <= k < now.len() implies #[trigger] all.subrange(0, now.len() as int)[k] == now[k] by {
                                if k < firsts.len() {
                                    assert(all[k] == firsts[k]);
                                } else {
                                    assert(all[k] == whole[k - firsts.len()]);
                                    assert(whole.subrange(0, tail.len() as int)[k - firsts.len()] == tail[k - firsts.len()]);
                                }
                            }
                            assert(all.subrange(0, now.len() as int) =~= now);
                            lemma_repeat_in_prefix(all, now, j, done_before.len() as int);
                            let b = done_before.len() as int;
                            assert(all[j] == now[j] && all[b] == now[b]);
                            assert(now.take(b) =~= done_before);
                            assert(all.take(b) =~= now.take(b)) by {
                                assert forall|k: int| 0 <= k < b implies all.take(b)[k] == now.take(b)[k] by {
                                    assert(all.subrange(0, now.len() as int)[k] == now[k]);
                                }
                            }
                            assert(first_repeat(all, j, b));
                            assert(message@ == duplicate_message(all, j, b));
                        }
                        return Err(message);
                    },
                    None => {
                        assert forall|a: int, b: int| 0 <= a < b < assets@.len() implies (#[trigger] assets@[a]).path@ != (#[trigger] assets@[b]).path@ by {
                            if b < before.len() {
                                assert(assets@[a] == before[a] && assets@[b] == before[b]);
                            } else {
                                assert(assets@[a] == before[a]);
                            }
                        }
                        proof {
                            let now = firsts + data_bundles(registry.data_types@.subrange(0, i + 1));
                            assert(now =~= done_before.push((ui.entry@, ui.source@, declared@)));
                            assert forall|a: int, b: int| 0 <= a < b < now.len() implies (#[trigger] now[a]).0 != (#[trigger] now[b]).0 by {
                                if b == done_before.len() {
                                    assert(before[a].path@ != served_path(ui.entry@));
                                    assert(now[a] == done_before[a]);
                                } else {
                                    assert(now[a] == done_before[a] && now[b] == done_before[b]);
                                }
                            }
                            assert forall|k: int| 0 <= k < assets@.len() implies {
                                &&& (#[trigger] assets@[k]).path@ == served_path(now[k].0)
                                &&& assets@[k].content_type@ == content_type_of(extension(now[k].0))
                                &&& assets@[k].body@ == now[k].1
                            } by {
                                if k < before.len() {
                                    assert(assets@[k] == before[k]);
                                    assert(now[k] == done_before[k]);
                                }
                            }
                        }
                    },
                }
            },
            None => {
                assert(firsts + data_bundles(registry.data_types@.subrange(0, i + 1)) =~= done_before);
            },
        }
        i = i + 1;
    }
    assert(registry.data_types@.subrange(0, registry.data_types@.len() as int) =~= registry.data_types@);
    Ok(assets)
}

} // verus!
