//! High-level patch orchestration:
//! read WeChat version → match config → patch binary → codesign.
//!
//! The file system and the external commands are left to the caller; this
//! module decides what to do with what they report.

use vstd::prelude::*;
use vstd::string::*;

use crate::macos::config::{find_for_version, Entry, EntryView, PatchConfig, PatchConfigView, TargetView};
use crate::macos::{Error, ErrorView};
use crate::text::{from_utf8_lossy, join, trim, trim_string, utf8_lossy};

verus! {

/// `rel` (a relative path) joined onto `base`, as `Path::join` does on Unix.
pub open spec fn path_join(base: Seq<char>, rel: Seq<char>) -> Seq<char> {
    if base.len() == 0 {
        rel
    } else if base.last() == '/' {
        base + rel
    } else {
        base + seq!['/'] + rel
    }
}

/// Joining keeps both parts as given: for a non-empty base the joined path
/// starts with the base and ends with the relative part, with exactly one
/// character between them, a `/`, when the base does not already end in `/`,
/// and none when it does; joining onto an empty base gives the relative part.
pub proof fn lemma_path_join_keeps_parts(base: Seq<char>, rel: Seq<char>)
    ensures
        base.len() == 0 ==> path_join(base, rel) == rel,
        base.len() > 0 ==> {
            let p = path_join(base, rel);
            let gap: int = if base.last() == '/' { 0 } else { 1 };
            &&& p.len() == base.len() + gap + rel.len()
            &&& p.subrange(0, base.len() as int) == base
            &&& p.subrange(p.len() - rel.len(), p.len() as int) == rel
            &&& (gap == 1 ==> p[base.len() as int] == '/')
        },
{
    if base.len() > 0 {
        let p = path_join(base, rel);
        assert(p.subrange(0, base.len() as int) =~= base);
        assert(p.subrange(p.len() - rel.len(), p.len() as int) =~= rel);
    }
}

fn join_path(base: &str, rel: &str) -> (res: String)
    ensures
        res@ == path_join(base@, rel@),
{
    let n = base.unicode_len();
    if n == 0 {
        return rel.to_owned();
    }
    let mut out = base.to_owned();
    if base.get_char(n - 1) != '/' {
        out.append("/");
        proof {
            reveal_strlit("/");
        }
    }
    out.append(rel);
    out
}

/// Resolved paths for a WeChat.app bundle.
pub struct WeChatApp {
    pub app_path: String,
    pub binary_path: String,
    pub plist_path: String,
}

impl WeChatApp {
    pub fn new(app_path: &str) -> (res: Self)
        ensures
            res.app_path@ == app_path@,
            res.binary_path@ == path_join(app_path@, "Contents/MacOS/WeChat"@),
            res.plist_path@ == path_join(app_path@, "Contents/Info.plist"@),
            app_path@.len() > 0 ==> res.binary_path@.subrange(0, app_path@.len() as int)
                == app_path@,
            app_path@.len() > 0 ==> res.plist_path@.subrange(0, app_path@.len() as int)
                == app_path@,
    {
        proof {
            lemma_path_join_keeps_parts(app_path@, "Contents/MacOS/WeChat"@);
            lemma_path_join_keeps_parts(app_path@, "Contents/Info.plist"@);
        }
        WeChatApp {
            app_path: app_path.to_owned(),
            binary_path: join_path(app_path, "Contents/MacOS/WeChat"),
            plist_path: join_path(app_path, "Contents/Info.plist"),
        }
    }

    /// Verify that the app bundle exists with expected files, given whether
    /// the bundle, its binary and its Info.plist exist.
    pub fn validate(&self, app_exists: bool, binary_exists: bool, plist_exists: bool) -> (res:
        Result<(), Error>)
        ensures
            !app_exists ==> (res matches Err(e) && e@ == ErrorView::AppNotFound(self.app_path@)),
            app_exists && !binary_exists ==> (res matches Err(e) && e@ == ErrorView::AppNotFound(
                "binary not found: "@ + self.binary_path@,
            )),
            app_exists && binary_exists && !plist_exists ==> (res matches Err(e) && e@
                == ErrorView::AppNotFound("Info.plist not found: "@ + self.plist_path@)),
            app_exists && binary_exists && plist_exists ==> res is Ok,
    {
        if !app_exists {
            return Err(Error::AppNotFound(self.app_path.clone()));
        }
        if !binary_exists {
            let mut m = String::from_str("binary not found: ");
            m.append(self.binary_path.as_str());
            return Err(Error::AppNotFound(m));
        }
        if !plist_exists {
            let mut m = String::from_str("Info.plist not found: ");
            m.append(self.plist_path.as_str());
            return Err(Error::AppNotFound(m));
        }
        Ok(())
    }
}

/// The WeChat version from the output of `defaults read <Info.plist>
/// CFBundleVersion`: its standard output, decoded and trimmed, when it
/// succeeded.
pub fn version_from_output(success: bool, stdout: &[u8], stderr: &[u8]) -> (res: Result<
    String,
    Error,
>)
    ensures
        success ==> (res matches Ok(v) && v@ == trim(utf8_lossy(stdout@))),
        !success ==> (res matches Err(e) && e@ == ErrorView::Io(
            "defaults read failed: "@ + utf8_lossy(stderr@),
        )),
{
    if !success {
        let detail = from_utf8_lossy(stderr);
        let mut m = String::from_str("defaults read failed: ");
        m.append(detail.as_str());
        return Err(Error::Io(m));
    }
    let out = from_utf8_lossy(stdout);
    Ok(trim_string(out.as_str()))
}

// ---------------------------------------------------------------------------
// Choosing the patch
// ---------------------------------------------------------------------------

/// The entries of all targets, target by target.
pub open spec fn all_entries(targets: Seq<TargetView>) -> Seq<EntryView>
    decreases targets.len(),
{
    if targets.len() == 0 {
        Seq::empty()
    } else {
        all_entries(targets.drop_last()) + targets.last().entries
    }
}

/// The number of entries in the targets before target `t`.
pub open spec fn entries_before(ts: Seq<TargetView>, t: int) -> int
    decreases t,
{
    if t <= 0 {
        0
    } else {
        entries_before(ts, t - 1) + ts[t - 1].entries.len()
    }
}

proof fn lemma_entries_before_prefix(ts: Seq<TargetView>, t: int)
    requires
        0 <= t < ts.len(),
    ensures
        entries_before(ts, t) == entries_before(ts.drop_last(), t),
    decreases t,
{
    if t > 0 {
        lemma_entries_before_prefix(ts, t - 1);
    }
}

proof fn lemma_entries_before_monotone(ts: Seq<TargetView>, t: int, u: int)
    requires
        0 <= t <= u,
    ensures
        entries_before(ts, t) <= entries_before(ts, u),
    decreases u - t,
{
    if t < u {
        lemma_entries_before_monotone(ts, t, u - 1);
    }
}

/// The entries collected from all targets are every target's entries,
/// concatenated in target order: as many as all targets hold together, and
/// entry `j` of target `t` at position (entries of the targets before `t`) + `j`.
pub proof fn lemma_all_entries_layout(ts: Seq<TargetView>)
    ensures
        all_entries(ts).len() == entries_before(ts, ts.len() as int),
        forall|t: int, j: int|
            0 <= t < ts.len() && 0 <= j < ts[t].entries.len() ==> all_entries(ts)[entries_before(
                ts,
                t,
            ) + j] == #[trigger] ts[t].entries[j],
    decreases ts.len(),
{
    if ts.len() > 0 {
        let front = ts.drop_last();
        let n = ts.len() - 1;
        lemma_all_entries_layout(front);
        lemma_entries_before_prefix(ts, n);
        assert forall|t: int, j: int|
            0 <= t < ts.len() && 0 <= j < ts[t].entries.len() implies all_entries(ts)[entries_before(
            ts,
            t,
        ) + j] == #[trigger] ts[t].entries[j] by {
            let whole = all_entries(ts);
            assert(whole == all_entries(front) + ts.last().entries);
            if t < n {
                lemma_entries_before_prefix(ts, t);
                assert(front[t] == ts[t]);
                assert(front[t].entries[j] == ts[t].entries[j]);
                lemma_entries_before_monotone(front, t + 1, n);
                lemma_entries_before_monotone(front, 0, t);
                assert(entries_before(front, t + 1) == entries_before(front, t)
                    + front[t].entries.len());
                assert(entries_before(front, t) + j < entries_before(front, n));
                assert(front.len() == n);
                assert(all_entries(front).len() == entries_before(front, n));
                assert(all_entries(front)[entries_before(front, t) + j] == front[t].entries[j]);
                assert(entries_before(ts, t) == entries_before(front, t));
                assert(whole[entries_before(front, t) + j] == all_entries(front)[entries_before(
                    front,
                    t,
                ) + j]);
            } else {
                assert(t == n);
                assert(ts.last() == ts[t]);
                assert(front.len() == n);
                assert(all_entries(front).len() == entries_before(front, n));
                assert(entries_before(ts, t) == all_entries(front).len());
                assert(whole[all_entries(front).len() + j] == ts.last().entries[j]);
            }
        }
    }
}

/// The versions of the configurations, in order.
pub open spec fn versions(configs: Seq<PatchConfigView>) -> Seq<Seq<char>> {
    configs.map_values(|c: PatchConfigView| c.version)
}

/// Collect all entries from all targets of a configuration.
pub fn collect_entries(config: &PatchConfig) -> (res: Vec<Entry>)
    ensures
        res.deep_view() == all_entries(config.deep_view().targets),
        ({
            let ts = config.deep_view().targets;
            &&& res@.len() == entries_before(ts, ts.len() as int)
            &&& forall|t: int, j: int|
                0 <= t < ts.len() && 0 <= j < ts[t].entries.len() ==> res.deep_view()[entries_before(
                    ts,
                    t,
                ) + j] == #[trigger] ts[t].entries[j]
        }),
{
    proof {
        lemma_all_entries_layout(config.deep_view().targets);
    }
    let ghost ts = config.deep_view().targets;
    let mut out: Vec<Entry> = Vec::new();
    assert(ts.take(0) =~= Seq::<TargetView>::empty());
    for i in 0..config.targets.len()
        invariant
            ts == config.targets.deep_view(),
            i <= ts.len(),
            out@.len() == all_entries(ts.take(i as int)).len(),
            out.deep_view() == all_entries(ts.take(i as int)),
    {
        let ghost before = out.deep_view();
        let es = &config.targets[i].entries;
        for j in 0..es.len()
            invariant
                j <= es@.len(),
                out@.len() == before.len() + j,
                out.deep_view() == before + es.deep_view().take(j as int),
        {
            let ghost prev = out@;
            let ghost prev_deep = out.deep_view();
            let e = es[j].duplicate();
            out.push(e);
            assert(out.deep_view() =~= before + es.deep_view().take(j + 1)) by {
                assert forall|k: int| 0 <= k < out@.len() implies out.deep_view()[k] == (before
                    + es.deep_view().take(j + 1))[k] by {
                    if k < prev.len() {
                        assert(out@[k] == prev[k]);
                        assert(prev_deep[k] == (before + es.deep_view().take(j as int))[k]);
                    } else {
                        assert(out@[k] == e);
                    }
                }
            }
        }
        assert(ts.take(i + 1).drop_last() =~= ts.take(i as int));
        assert(es.deep_view().take(es.len() as int) =~= es.deep_view());
        assert(ts[i as int].entries == es.deep_view());
    }
    assert(ts.take(ts.len() as int) =~= ts);
    out
}

/// The message listing the supported versions for an unsupported one.
fn unsupported_version(configs: &[PatchConfig], version: &str) -> (e: Error)
    ensures
        e@ == ErrorView::UnsupportedVersion(
            version@ + " (supported: "@ + join(versions(configs.deep_view()), ", "@) + ")"@,
        ),
{
    let ghost vs = versions(configs.deep_view());
    let mut list = String::new();
    assert(vs.take(0) =~= Seq::<Seq<char>>::empty());
    for i in 0..configs.len()
        invariant
            vs == versions(configs.deep_view()),
            i <= vs.len(),
            list@ == join(vs.take(i as int), ", "@),
    {
        if i > 0 {
            list.append(", ");
        }
        list.append(configs[i].version.as_str());
        assert(vs.take(i + 1).drop_last() =~= vs.take(i as int));
        assert(vs[i as int] == configs[i as int].version@);
        assert(list@ =~= join(vs.take(i + 1), ", "@)) by {
            if i == 0 {
                assert(vs.take(1)[0] == vs[0]);
            }
        }
    }
    assert(vs.take(vs.len() as int) =~= vs);
    let mut m = version.to_owned();
    m.append(" (supported: ");
    m.append(list.as_str());
    m.append(")");
    Error::UnsupportedVersion(m)
}

/// Match the configuration for `version` and collect its entries from all
/// targets; an unsupported version is an error that lists the supported ones.
pub fn select_entries(configs: &[PatchConfig], version: &str) -> (res: Result<
    (PatchConfig, Vec<Entry>),
    Error,
>)
    ensures
        ({
            let cs = configs.deep_view();
            match res {
                Ok((c, es)) => {
                    &&& exists|i: int|
                        0 <= i < cs.len() && c.deep_view() == cs[i] && cs[i].version == version@
                            && forall|j: int| 0 <= j < i ==> (#[trigger] cs[j]).version != version@
                    &&& es.deep_view() == all_entries(c.deep_view().targets)
                },
                Err(e) => {
                    &&& forall|i: int| 0 <= i < cs.len() ==> (#[trigger] cs[i]).version != version@
                    &&& e@ == ErrorView::UnsupportedVersion(
                        version@ + " (supported: "@ + join(versions(cs), ", "@) + ")"@,
                    )
                },
            }
        }),
{
    match find_for_version(configs, version) {
        Some(c) => {
            let es = collect_entries(&c);
            Ok((c, es))
        },
        None => Err(unsupported_version(configs, version)),
    }
}

/// List the current version (if known) and the supported versions.
pub fn list_versions(current: Option<String>, configs: &[PatchConfig]) -> (res: (
    Option<String>,
    Vec<String>,
))
    ensures
        res.0 == current,
        res.1.deep_view() == versions(configs.deep_view()),
{
    let ghost vs = versions(configs.deep_view());
    let mut out: Vec<String> = Vec::new();
    for i in 0..configs.len()
        invariant
            vs == versions(configs.deep_view()),
            i <= vs.len(),
            out@.len() == i,
            out.deep_view() =~= vs.take(i as int),
    {
        let ghost prev = out@;
        let v = configs[i].version.clone();
        out.push(v);
        assert(out.deep_view() =~= vs.take(i + 1)) by {
            assert forall|k: int| 0 <= k < prev.len() implies out@[k] == prev[k] by {}
            assert(out@[i as int] == v);
            assert(vs[i as int] == configs[i as int].version@);
        }
    }
    assert(vs.take(vs.len() as int) =~= vs);
    (current, out)
}

// ---------------------------------------------------------------------------
// Re-signing
// ---------------------------------------------------------------------------

/// A program with its arguments.
pub struct CommandLine {
    pub program: String,
    pub args: Vec<String>,
}

fn owned_args(parts: &[&str]) -> (res: Vec<String>)
    ensures
        res.deep_view() == parts.deep_view(),
{
    let mut out: Vec<String> = Vec::new();
    for i in 0..parts.len()
        invariant
            i <= parts@.len(),
            out@.len() == i,
            out.deep_view() =~= parts.deep_view().take(i as int),
    {
        let ghost prev = out@;
        let a = parts[i].to_owned();
        out.push(a);
        assert(out.deep_view() =~= parts.deep_view().take(i + 1)) by {
            assert forall|k: int| 0 <= k < prev.len() implies out@[k] == prev[k] by {}
            assert(out@[i as int] == a);
        }
    }
    assert(parts.deep_view().take(parts.len() as int) =~= parts.deep_view());
    out
}

/// The commands that remove the signature, re-sign ad-hoc, and clear
/// extended attributes, to be run in order until one fails.
pub fn codesign_commands(app: &WeChatApp) -> (res: Vec<CommandLine>)
    ensures
        res@.len() == 3,
        res@[0].program@ == "codesign"@,
        res@[0].args.deep_view() == seq!["--remove-sign"@, app.app_path@],
        res@[1].program@ == "codesign"@,
        res@[1].args.deep_view() == seq!["--force"@, "--deep"@, "--sign"@, "-"@, app.app_path@],
        res@[2].program@ == "xattr"@,
        res@[2].args.deep_view() == seq!["-cr"@, app.app_path@],
{
    let p = app.app_path.as_str();
    let a0 = owned_args(&["--remove-sign", p]);
    let a1 = owned_args(&["--force", "--deep", "--sign", "-", p]);
    let a2 = owned_args(&["-cr", p]);
    let mut out: Vec<CommandLine> = Vec::new();
    out.push(CommandLine { program: String::from_str("codesign"), args: a0 });
    out.push(CommandLine { program: String::from_str("codesign"), args: a1 });
    out.push(CommandLine { program: String::from_str("xattr"), args: a2 });
    out
}

/// What a finished external command comes to: success, or a codesign error
/// carrying its standard error.
pub fn command_result(program: &str, success: bool, stderr: &[u8]) -> (res: Result<(), Error>)
    ensures
        success ==> res is Ok,
        !success ==> (res matches Err(e) && e@ == ErrorView::Codesign(
            program@ + " failed: "@ + utf8_lossy(stderr@),
        )),
{
    if success {
        return Ok(());
    }
    let detail = from_utf8_lossy(stderr);
    let mut m = program.to_owned();
    m.append(" failed: ");
    m.append(detail.as_str());
    Err(Error::Codesign(m))
}

} // verus!
