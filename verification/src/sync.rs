//! What goes out: the observability block of the hotspots and the packet that
//! carries it.

use vstd::prelude::*;

use crate::json;
use crate::json::Json;
use crate::millis::Millis;
use crate::registry::BindingView;
use crate::text;

verus! {

/// What is shown of a hotspot.
#[derive(Debug, PartialEq)]
pub struct HotspotView {
    pub node_id: String,
    pub p99_ms: Millis,
    pub alloc_bytes: i64,
    pub call_count: i64,
    pub environment: String,
}

/// The mathematical value of a shown hotspot.
#[verifier::ext_equal]
pub struct Shown {
    pub node_id: Seq<char>,
    pub p99_ms: Millis,
    pub alloc_bytes: i64,
    pub call_count: i64,
    pub environment: Seq<char>,
}

impl View for HotspotView {
    type V = Shown;

    open spec fn view(&self) -> Shown {
        Shown {
            node_id: self.node_id@,
            p99_ms: self.p99_ms,
            alloc_bytes: self.alloc_bytes,
            call_count: self.call_count,
            environment: self.environment@,
        }
    }
}

/// What is shown of a row.
pub open spec fn shown(row: BindingView) -> Shown {
    Shown {
        node_id: row.canonical_node_id,
        p99_ms: row.p99_ms,
        alloc_bytes: row.alloc_bytes,
        call_count: row.call_count,
        environment: row.environment,
    }
}

/// The values of a list of shown hotspots.
pub open spec fn shown_views(hotspots: Seq<HotspotView>) -> Seq<Shown> {
    hotspots.map_values(|h: HotspotView| h@)
}

/// `bytes`, which is not negative, in tenths of a megabyte (2^20 bytes), to the
/// nearest; halves go to the even one.
pub open spec fn tenths_of_megabyte(bytes: nat) -> nat {
    let down = 10 * bytes / 0x10_0000;
    let rest = 10 * bytes % 0x10_0000;
    if rest > 0x8_0000 || (rest == 0x8_0000 && down % 2 == 1) {
        down + 1
    } else {
        down
    }
}

/// `bytes` in megabytes, with one decimal.
pub open spec fn megabytes(bytes: int) -> Seq<char> {
    if bytes < 0 {
        let tenths = tenths_of_megabyte((-bytes) as nat);
        seq!['-'] + text::decimal(tenths / 10) + seq!['.', text::digit(tenths % 10)]
    } else {
        let tenths = tenths_of_megabyte(bytes as nat);
        text::decimal(tenths / 10) + seq!['.', text::digit(tenths % 10)]
    }
}

/// The short name of an environment.
pub open spec fn environment_label(environment: Seq<char>) -> Seq<char> {
    if environment == "production"@ {
        "prod"@
    } else {
        environment
    }
}

/// The three lines of one hotspot.
pub open spec fn hotspot_lines(h: Shown) -> Seq<char> {
    "["@ + h.node_id + " (AST Node)]\n ├── ⚡ [Draco Telemetry] p99 Latency: "@
        + text::signed_grouped(h.p99_ms.rounded_spec())
        + "ms (CRITICAL HOTSPOT)\n └── 📊 Alloc: "@ + megabytes(h.alloc_bytes as int)
        + "MB | Calls: "@ + text::signed_grouped(h.call_count as int) + "/min ("@
        + environment_label(h.environment) + ")\n"@
}

/// The lines of all hotspots, in order.
pub open spec fn hotspot_block(hotspots: Seq<Shown>) -> Seq<char>
    decreases hotspots.len(),
{
    if hotspots.len() == 0 {
        Seq::empty()
    } else {
        hotspot_block(hotspots.drop_last()) + hotspot_lines(hotspots.last())
    }
}

/// The packet that carries `data`, given as its text.
pub open spec fn packet(workspace_key: Seq<char>, data: Seq<char>) -> Seq<char> {
    "metadata:\n  workspace_key: "@ + workspace_key + "\nplugin_data: "@ + data + "\n"@
}

/// The packet that reports a failure.
pub open spec fn error_packet(message: Seq<char>) -> Seq<char> {
    "metadata:\n  error: "@ + message + "\n"@
}

/// Appends `bytes` in megabytes, with one decimal, to `out`.
fn push_megabytes(out: &mut String, bytes: i64)
    ensures
        final(out)@ == old(out)@ + megabytes(bytes as int),
{
    let size: u128 = if bytes < 0 {
        out.push('-');
        (-(bytes as i128)) as u128
    } else {
        bytes as u128
    };
    let down: u128 = 10 * size / 0x10_0000;
    let rest: u128 = 10 * size % 0x10_0000;
    let tenths: u64 = if rest > 0x8_0000 || (rest == 0x8_0000 && down % 2 == 1) {
        (down + 1) as u64
    } else {
        down as u64
    };
    text::push_decimal(out, tenths / 10);
    out.push('.');
    text::push_digit(out, tenths % 10);
    assert(out@ =~= old(out)@ + megabytes(bytes as int));
}

/// Writes the observability block: three lines for each hotspot.
///
/// ```text
/// [src/db/query.rs:function:query_users (AST Node)]
///  ├── ⚡ [Draco Telemetry] p99 Latency: 1,250ms (CRITICAL HOTSPOT)
///  └── 📊 Alloc: 10.0MB | Calls: 5,000/min (prod)
/// ```
pub fn synthesize_hotspot_block(hotspots: &Vec<HotspotView>) -> (block: String)
    ensures
        block@ == hotspot_block(shown_views(hotspots@)),
{
    let mut block: String = String::new();
    let mut i: usize = 0;
    let ghost all = shown_views(hotspots@);
    assert(all.take(0) =~= Seq::<Shown>::empty());
    while i < hotspots.len()
        invariant
            i <= hotspots.len(),
            all == shown_views(hotspots@),
            block@ == hotspot_block(all.take(i as int)),
        decreases hotspots.len() - i,
    {
        assert(all.take(i + 1).drop_last() =~= all.take(i as int));
        assert(all[i as int] == hotspots@[i as int]@);
        push_hotspot_lines(&mut block, &hotspots[i]);
        i += 1;
    }
    assert(all.take(i as int) =~= all);
    block
}

/// Appends the three lines of one hotspot to `out`.
fn push_hotspot_lines(out: &mut String, h: &HotspotView)
    ensures
        final(out)@ == old(out)@ + hotspot_lines(h@),
{
    out.append("[");
    out.append(&h.node_id);
    out.append(" (AST Node)]\n ├── ⚡ [Draco Telemetry] p99 Latency: ");
    text::push_signed_grouped(out, h.p99_ms.rounded());
    out.append("ms (CRITICAL HOTSPOT)\n └── 📊 Alloc: ");
    push_megabytes(out, h.alloc_bytes);
    out.append("MB | Calls: ");
    text::push_signed_grouped(out, h.call_count);
    out.append("/min (");
    if text::same_text(&h.environment, "production") {
        out.append("prod");
    } else {
        out.append(&h.environment);
    }
    out.append(")\n");
    assert(out@ =~= old(out)@ + hotspot_lines(h@));
}

/// Writes the packet that carries `data`.
pub fn emit_packet(workspace_key: &str, data: &Json) -> (out: String)
    ensures
        out@ == packet(workspace_key@, json::written(data@)),
        json::is_plain(data@, json::PLAIN_DEPTH as nat) ==> json::parsed(json::written(data@))
            == Some(data@),
{
    let body: String = data.to_text();
    let mut out: String = "metadata:\n  workspace_key: ".to_owned();
    out.append(workspace_key);
    out.append("\nplugin_data: ");
    out.append(&body);
    out.append("\n");
    out
}

/// Writes the packet that reports a failure.
pub fn emit_error_packet(message: &str) -> (out: String)
    ensures
        out@ == error_packet(message@),
{
    let mut out: String = "metadata:\n  error: ".to_owned();
    out.append(message);
    out.append("\n");
    out
}

/// The value of a shown hotspot has each field under its own name, and takes it from
/// the column of the row that it stands for.
pub proof fn shown_hotspot_has_its_fields(h: HotspotView, row: BindingView)
    ensures
        h@.node_id == h.node_id@,
        h@.p99_ms == h.p99_ms,
        h@.alloc_bytes == h.alloc_bytes,
        h@.call_count == h.call_count,
        h@.environment == h.environment@,
        shown(row).node_id == row.canonical_node_id,
        shown(row).p99_ms == row.p99_ms,
        shown(row).alloc_bytes == row.alloc_bytes,
        shown(row).call_count == row.call_count,
        shown(row).environment == row.environment,
{
}

/// The values of a list of shown hotspots are those of the hotspots, one by one.
pub proof fn shown_values_come_one_by_one(hotspots: Seq<HotspotView>)
    ensures
        shown_views(hotspots).len() == hotspots.len(),
        forall|i: int| 0 <= i < hotspots.len() ==> #[trigger] shown_views(hotspots)[i]
            == hotspots[i]@,
{
}

/// One hotspot more at the end adds its own lines at the end of the block, however many
/// there are; no hotspot, no lines.
pub proof fn each_hotspot_adds_its_lines(hotspots: Seq<Shown>, h: Shown)
    ensures
        hotspot_block(Seq::empty()).len() == 0,
        hotspot_block(hotspots.push(h)) == hotspot_block(hotspots) + hotspot_lines(h),
{
    assert(hotspots.push(h).drop_last() =~= hotspots);
}

/// The block of two lists, one behind the other, is the block of the first and then
/// that of the second: every hotspot has its lines at its place.
pub proof fn blocks_follow_one_another(a: Seq<Shown>, b: Seq<Shown>)
    ensures
        hotspot_block(a + b) == hotspot_block(a) + hotspot_block(b),
    decreases b.len(),
{
    if b.len() == 0 {
        assert(a + b =~= a);
        assert(hotspot_block(a) + hotspot_block(b) =~= hotspot_block(a));
    } else {
        blocks_follow_one_another(a, b.drop_last());
        assert(a + b =~= (a + b.drop_last()).push(b.last()));
        each_hotspot_adds_its_lines(a + b.drop_last(), b.last());
        each_hotspot_adds_its_lines(b.drop_last(), b.last());
        assert(b.drop_last().push(b.last()) =~= b);
        assert(hotspot_block(a + b) =~= hotspot_block(a) + hotspot_block(b));
    }
}

/// A hotspot has three lines: the first names its node, the second its rounded p99, the
/// third its allocation, its calls and its environment, where `production` is called
/// `prod`.
pub proof fn hotspot_has_three_lines(h: Shown)
    ensures
        ({
            let first = "["@ + h.node_id + " (AST Node)]"@;
            let second = " ├── ⚡ [Draco Telemetry] p99 Latency: "@ + text::signed_grouped(
                h.p99_ms.rounded_spec(),
            ) + "ms (CRITICAL HOTSPOT)"@;
            let label = if h.environment == "production"@ {
                "prod"@
            } else {
                h.environment
            };
            let third = " └── 📊 Alloc: "@ + megabytes(h.alloc_bytes as int) + "MB | Calls: "@
                + text::signed_grouped(h.call_count as int) + "/min ("@ + label + ")"@;
            hotspot_lines(h) == first.push('\n') + second.push('\n') + third.push('\n')
        }),
{
    reveal_strlit(" (AST Node)]\n ├── ⚡ [Draco Telemetry] p99 Latency: ");
    reveal_strlit(" (AST Node)]");
    reveal_strlit(" ├── ⚡ [Draco Telemetry] p99 Latency: ");
    reveal_strlit("ms (CRITICAL HOTSPOT)\n └── 📊 Alloc: ");
    reveal_strlit("ms (CRITICAL HOTSPOT)");
    reveal_strlit(" └── 📊 Alloc: ");
    reveal_strlit(")\n");
    reveal_strlit(")");
    assert(" (AST Node)]\n ├── ⚡ [Draco Telemetry] p99 Latency: "@ =~= " (AST Node)]"@.push('\n')
        + " ├── ⚡ [Draco Telemetry] p99 Latency: "@);
    assert("ms (CRITICAL HOTSPOT)\n └── 📊 Alloc: "@ =~= "ms (CRITICAL HOTSPOT)"@.push('\n')
        + " └── 📊 Alloc: "@);
    assert(")\n"@ =~= ")"@.push('\n'));
    let label = environment_label(h.environment);
    let first = "["@ + h.node_id + " (AST Node)]"@;
    let p99 = text::signed_grouped(h.p99_ms.rounded_spec());
    let second = " ├── ⚡ [Draco Telemetry] p99 Latency: "@ + p99 + "ms (CRITICAL HOTSPOT)"@;
    let third = " └── 📊 Alloc: "@ + megabytes(h.alloc_bytes as int) + "MB | Calls: "@
        + text::signed_grouped(h.call_count as int) + "/min ("@ + label + ")"@;
    assert(hotspot_lines(h) =~= first.push('\n') + second.push('\n') + third.push('\n'));
}

/// A size is shown as the nearest tenth of a megabyte, 2^20 bytes, and of two equally
/// near ones as the even one. The number of tenths is handed back.
pub proof fn sizes_are_shown_in_tenths(bytes: int) -> (tenths: nat)
    ensures
        ({
            let size = if bytes < 0 {
                -bytes
            } else {
                bytes
            };
            let off = 2 * (tenths * 1_048_576) - 2 * (10 * size);
            let shown = text::decimal(tenths / 10) + seq!['.', text::digit(tenths % 10)];
            &&& -1_048_576 <= off <= 1_048_576
            &&& off == 1_048_576 || off == -1_048_576 ==> tenths % 2 == 0
            &&& bytes >= 0 ==> megabytes(bytes) == shown
            &&& bytes < 0 ==> megabytes(bytes) == seq!['-'] + shown
        }),
{
    let size = if bytes < 0 {
        (-bytes) as nat
    } else {
        bytes as nat
    };
    let tenths = tenths_of_megabyte(size);
    let shown = text::decimal(tenths / 10) + seq!['.', text::digit(tenths % 10)];
    if bytes < 0 {
        assert(megabytes(bytes) =~= seq!['-'] + shown);
    }
    tenths
}

/// A packet has the workspace in its second line and all of the data in its third, and
/// an error packet the message in its second.
pub proof fn packets_carry_what_they_are_given(
    workspace_key: Seq<char>,
    data: Seq<char>,
    message: Seq<char>,
)
    ensures
        packet(workspace_key, data) == "metadata:"@.push('\n') + ("  workspace_key: "@
            + workspace_key).push('\n') + ("plugin_data: "@ + data).push('\n'),
        error_packet(message) == "metadata:"@.push('\n') + ("  error: "@ + message).push('\n'),
{
    reveal_strlit("metadata:\n  workspace_key: ");
    reveal_strlit("metadata:");
    reveal_strlit("  workspace_key: ");
    reveal_strlit("\nplugin_data: ");
    reveal_strlit("plugin_data: ");
    reveal_strlit("\n");
    reveal_strlit("metadata:\n  error: ");
    reveal_strlit("  error: ");
    assert(packet(workspace_key, data) =~= "metadata:"@.push('\n') + ("  workspace_key: "@
        + workspace_key).push('\n') + ("plugin_data: "@ + data).push('\n'));
    assert(error_packet(message) =~= "metadata:"@.push('\n') + ("  error: "@ + message).push('\n'));
}

} // verus!
