//! The EPG reconciliation engine: builds two one-to-many indices over a
//! playlist's channels (by provider EPG id, by sanitized name), resolves an
//! alias map from the XMLTV channel definitions, matches every programme
//! against local channels through a waterfall (id match first, sanitized
//! name second), and inserts one guide row per matched channel, keyed by a
//! hash that is unique per channel.

use vstd::prelude::*;

use crate::model::{opt_str_view, Channel, ChannelView, EpgEntry, EpgEntryView};
use crate::sanitize::sanitize_spec;
use crate::store::{catalog_wf, has_channel, has_playlist, Catalog, CatalogView};
use crate::timefmt::convert_to_iso_spec;

verus! {

/// One bucket of a one-to-many index: a key and the channel ids under it.
pub struct IdBucket {
    pub key: String,
    pub ids: Vec<i64>,
}

/// Abstract value of an index bucket.
pub struct IdBucketView {
    pub key: Seq<char>,
    pub ids: Seq<i64>,
}

impl View for IdBucket {
    type V = IdBucketView;

    open spec fn view(&self) -> IdBucketView {
        IdBucketView { key: self.key@, ids: self.ids@ }
    }
}

/// Abstract value of a whole index.
pub open spec fn buckets_view(v: Seq<IdBucket>) -> Seq<IdBucketView> {
    Seq::new(v.len(), |i: int| v[i]@)
}

/// A bucket under this key exists.
pub open spec fn has_key(s: Seq<IdBucketView>, key: Seq<char>) -> bool {
    exists|i: int| 0 <= i < s.len() && (#[trigger] s[i]).key == key
}

/// The ids under a key (meaningful when keys are unique).
pub open spec fn ids_of(s: Seq<IdBucketView>, key: Seq<char>) -> Seq<i64> {
    s[choose|i: int| 0 <= i < s.len() && (#[trigger] s[i]).key == key].ids
}

/// Keys are unique across the index.
pub open spec fn index_wf(s: Seq<IdBucketView>) -> bool {
    forall|i: int, j: int| 0 <= i < j < s.len() ==> (#[trigger] s[i]).key != (#[trigger] s[j]).key
}

/// The index with `id` appended under `key`: onto the existing bucket, or
/// into a fresh one at the end.
pub open spec fn spec_index_push(s: Seq<IdBucketView>, key: Seq<char>, id: i64) -> Seq<
    IdBucketView,
> {
    if has_key(s, key) {
        Seq::new(
            s.len(),
            |i: int|
                if s[i].key == key {
                    IdBucketView { ids: s[i].ids.push(id), ..s[i] }
                } else {
                    s[i]
                },
        )
    } else {
        s.push(IdBucketView { key: key, ids: seq![id] })
    }
}

/// With unique keys, the bucket `ids_of` picks is the bucket at any index
/// holding that key.
pub proof fn lemma_bucket_at_index(s: Seq<IdBucketView>, i: int)
    requires
        index_wf(s),
        0 <= i < s.len(),
    ensures
        ids_of(s, s[i].key) == s[i].ids,
{
    let key = s[i].key;
    assert(has_key(s, key));
    let w = choose|w: int| 0 <= w < s.len() && (#[trigger] s[w]).key == key;
    if w != i {
        if w < i {
            assert(s[w].key != s[i].key);
        } else {
            assert(s[i].key != s[w].key);
        }
    }
}

/// Appends `id` under `key`, as `spec_index_push` says.
pub fn index_push(index: &mut Vec<IdBucket>, key: &str, id: i64)
    requires
        index_wf(buckets_view(old(index)@)),
    ensures
        index_wf(buckets_view(final(index)@)),
        buckets_view(final(index)@) == spec_index_push(buckets_view(old(index)@), key@, id),
{
    let ghost s0 = buckets_view(old(index)@);
    let n = index.len();
    let mut i: usize = 0;
    while i < n
        invariant
            n == s0.len(),
            index == old(index),
            i <= n,
            forall|j: int| 0 <= j < i ==> (#[trigger] s0[j]).key != key@,
        decreases n - i,
    {
        if crate::text::str_eq(index[i].key.as_str(), key) {
            assert(s0[i as int].key == key@);
            assert(has_key(s0, key@));
            index[i].ids.push(id);
            proof {
                let target = spec_index_push(s0, key@, id);
                assert forall|j: int| 0 <= j < buckets_view(index@).len() implies buckets_view(
                    index@,
                )[j] == target[j] by {
                    if j != i {
                        if j < i {
                            assert(s0[j].key != key@);
                        } else {
                            assert(s0[i as int].key != s0[j].key);
                        }
                    }
                }
                assert(buckets_view(index@) =~= target);
                assert forall|a: int, b: int|
                    0 <= a < b < buckets_view(index@).len() implies (
                #[trigger] buckets_view(index@)[a]).key != (
                #[trigger] buckets_view(index@)[b]).key by {
                    assert(buckets_view(index@)[a].key == s0[a].key);
                    assert(buckets_view(index@)[b].key == s0[b].key);
                }
            }
            return ;
        }
        i = i + 1;
    }
    assert(!has_key(s0, key@));
    let mut ids: Vec<i64> = Vec::new();
    ids.push(id);
    index.push(IdBucket { key: key.to_owned(), ids: ids });
    proof {
        assert(buckets_view(index@) =~= s0.push(IdBucketView { key: key@, ids: seq![id] }));
        assert forall|a: int, b: int|
            0 <= a < b < buckets_view(index@).len() implies (
        #[trigger] buckets_view(index@)[a]).key != (#[trigger] buckets_view(index@)[b]).key by {
            if b == s0.len() {
                assert(buckets_view(index@)[a].key == s0[a].key);
                assert(!has_key(s0, key@));
            }
        }
    }
}

/// Finds the bucket under `key`, if any.
pub fn index_lookup(index: &Vec<IdBucket>, key: &str) -> (r: Option<usize>)
    ensures
        match r {
            Some(i) => i < buckets_view(index@).len() && buckets_view(index@)[i as int].key == key@,
            None => !has_key(buckets_view(index@), key@),
        },
{
    let n = index.len();
    for i in 0..n
        invariant
            n == buckets_view(index@).len(),
            forall|j: int| 0 <= j < i ==> (#[trigger] buckets_view(index@)[j]).key != key@,
    {
        if crate::text::str_eq(index[i].key.as_str(), key) {
            assert(buckets_view(index@)[i as int].key == key@);
            return Some(i);
        }
    }
    None
}

/// One alias: an XMLTV channel id and the sanitized first display name.
pub struct Alias {
    pub key: String,
    pub val: String,
}

/// Abstract value of an alias.
pub struct AliasView {
    pub key: Seq<char>,
    pub val: Seq<char>,
}

impl View for Alias {
    type V = AliasView;

    open spec fn view(&self) -> AliasView {
        AliasView { key: self.key@, val: self.val@ }
    }
}

/// Abstract value of the alias table.
pub open spec fn aliases_view(v: Seq<Alias>) -> Seq<AliasView> {
    Seq::new(v.len(), |i: int| v[i]@)
}

/// An alias under this key exists.
pub open spec fn has_alias(s: Seq<AliasView>, key: Seq<char>) -> bool {
    exists|i: int| 0 <= i < s.len() && (#[trigger] s[i]).key == key
}

/// The value under a key (meaningful when keys are unique).
pub open spec fn alias_of(s: Seq<AliasView>, key: Seq<char>) -> Seq<char> {
    s[choose|i: int| 0 <= i < s.len() && (#[trigger] s[i]).key == key].val
}

/// Alias keys are unique.
pub open spec fn alias_wf(s: Seq<AliasView>) -> bool {
    forall|i: int, j: int| 0 <= i < j < s.len() ==> (#[trigger] s[i]).key != (#[trigger] s[j]).key
}

/// The alias table with `key` bound to `val`: a later binding replaces an
/// earlier one.
pub open spec fn spec_alias_insert(s: Seq<AliasView>, key: Seq<char>, val: Seq<char>) -> Seq<
    AliasView,
> {
    if has_alias(s, key) {
        Seq::new(
            s.len(),
            |i: int|
                if s[i].key == key {
                    AliasView { val: val, ..s[i] }
                } else {
                    s[i]
                },
        )
    } else {
        s.push(AliasView { key: key, val: val })
    }
}

/// Binds `key` to `val`, as `spec_alias_insert` says.
pub fn alias_insert(table: &mut Vec<Alias>, key: String, val: String)
    requires
        alias_wf(aliases_view(old(table)@)),
    ensures
        alias_wf(aliases_view(final(table)@)),
        aliases_view(final(table)@) == spec_alias_insert(aliases_view(old(table)@), key@, val@),
{
    let ghost s0 = aliases_view(old(table)@);
    let n = table.len();
    let mut i: usize = 0;
    while i < n
        invariant
            n == s0.len(),
            table == old(table),
            i <= n,
            forall|j: int| 0 <= j < i ==> (#[trigger] s0[j]).key != key@,
        decreases n - i,
    {
        if crate::text::str_eq(table[i].key.as_str(), key.as_str()) {
            assert(s0[i as int].key == key@);
            assert(has_alias(s0, key@));
            table[i].val = val;
            proof {
                let target = spec_alias_insert(s0, key@, val@);
                assert forall|j: int| 0 <= j < aliases_view(table@).len() implies aliases_view(
                    table@,
                )[j] == target[j] by {
                    if j != i {
                        if j < i {
                            assert(s0[j].key != key@);
                        } else {
                            assert(s0[i as int].key != s0[j].key);
                        }
                    }
                }
                assert(aliases_view(table@) =~= target);
                assert forall|a: int, b: int|
                    0 <= a < b < aliases_view(table@).len() implies (
                #[trigger] aliases_view(table@)[a]).key != (
                #[trigger] aliases_view(table@)[b]).key by {
                    assert(aliases_view(table@)[a].key == s0[a].key);
                    assert(aliases_view(table@)[b].key == s0[b].key);
                }
            }
            return ;
        }
        i = i + 1;
    }
    assert(!has_alias(s0, key@));
    table.push(Alias { key: key, val: val });
    proof {
        assert(aliases_view(table@) =~= s0.push(
            AliasView { key: table@[table@.len() - 1].key@, val: val@ },
        ));
        assert forall|a: int, b: int|
            0 <= a < b < aliases_view(table@).len() implies (
        #[trigger] aliases_view(table@)[a]).key != (#[trigger] aliases_view(table@)[b]).key by {
            if b == s0.len() {
                assert(aliases_view(table@)[a].key == s0[a].key);
                assert(!has_alias(s0, aliases_view(table@)[b].key));
            }
        }
    }
}

/// Finds the alias under `key`, if any.
pub fn alias_lookup(table: &Vec<Alias>, key: &str) -> (r: Option<usize>)
    ensures
        match r {
            Some(i) => i < aliases_view(table@).len() && aliases_view(table@)[i as int].key == key@,
            None => !has_alias(aliases_view(table@), key@),
        },
{
    let n = table.len();
    for i in 0..n
        invariant
            n == aliases_view(table@).len(),
            forall|j: int| 0 <= j < i ==> (#[trigger] aliases_view(table@)[j]).key != key@,
    {
        if crate::text::str_eq(table[i].key.as_str(), key) {
            assert(aliases_view(table@)[i as int].key == key@);
            return Some(i);
        }
    }
    None
}

/// One XMLTV channel definition: an id and its display names.
pub struct XmlChannelDef {
    pub id: String,
    pub display_names: Vec<String>,
}

/// Abstract value of an XMLTV channel definition.
pub struct XmlChannelDefView {
    pub id: Seq<char>,
    pub display_names: Seq<Seq<char>>,
}

impl View for XmlChannelDef {
    type V = XmlChannelDefView;

    open spec fn view(&self) -> XmlChannelDefView {
        XmlChannelDefView {
            id: self.id@,
            display_names: Seq::new(self.display_names@.len(), |i: int| self.display_names@[i]@),
        }
    }
}

/// One XMLTV programme entry.
pub struct Programme {
    pub start: String,
    pub stop: String,
    pub channel: String,
    pub title: String,
    pub desc: Option<String>,
}

/// Abstract value of a programme.
pub struct ProgrammeView {
    pub start: Seq<char>,
    pub stop: Seq<char>,
    pub channel: Seq<char>,
    pub title: Seq<char>,
    pub desc: Option<Seq<char>>,
}

impl View for Programme {
    type V = ProgrammeView;

    open spec fn view(&self) -> ProgrammeView {
        ProgrammeView {
            start: self.start@,
            stop: self.stop@,
            channel: self.channel@,
            title: self.title@,
            desc: opt_str_view(self.desc),
        }
    }
}

/// Abstract values of parsed XMLTV lists.
pub open spec fn defs_view(v: Seq<XmlChannelDef>) -> Seq<XmlChannelDefView> {
    Seq::new(v.len(), |i: int| v[i]@)
}

pub open spec fn progs_view(v: Seq<Programme>) -> Seq<ProgrammeView> {
    Seq::new(v.len(), |i: int| v[i]@)
}

/// The by-EPG-id index over a playlist's channels, built in table order
/// from index `k` on: one entry per channel carrying a provider EPG id.
pub open spec fn build_id_index_from(
    acc: Seq<IdBucketView>,
    chans: Seq<ChannelView>,
    pid: i64,
    k: int,
) -> Seq<IdBucketView>
    decreases chans.len() - k,
{
    if k < 0 || k >= chans.len() {
        acc
    } else {
        let c = chans[k];
        let acc2 = if c.playlist_id == pid {
            match c.epg_channel_id {
                Some(eid) => spec_index_push(acc, eid, c.id),
                None => acc,
            }
        } else {
            acc
        };
        build_id_index_from(acc2, chans, pid, k + 1)
    }
}

/// The by-sanitized-name index over a playlist's channels, built in table
/// order from index `k` on: one entry per channel.
pub open spec fn build_name_index_from(
    acc: Seq<IdBucketView>,
    chans: Seq<ChannelView>,
    pid: i64,
    k: int,
) -> Seq<IdBucketView>
    decreases chans.len() - k,
{
    if k < 0 || k >= chans.len() {
        acc
    } else {
        let c = chans[k];
        let acc2 = if c.playlist_id == pid {
            spec_index_push(acc, sanitize_spec(c.name), c.id)
        } else {
            acc
        };
        build_name_index_from(acc2, chans, pid, k + 1)
    }
}

/// The alias table from the XMLTV channel definitions, from index `k` on:
/// each definition with a display name binds its id to the sanitized first
/// display name; a definition without one is not aliasable.
pub open spec fn build_alias_from(
    acc: Seq<AliasView>,
    defs: Seq<XmlChannelDefView>,
    k: int,
) -> Seq<AliasView>
    decreases defs.len() - k,
{
    if k < 0 || k >= defs.len() {
        acc
    } else {
        let d = defs[k];
        let acc2 = if d.display_names.len() > 0 {
            spec_alias_insert(acc, d.id, sanitize_spec(d.display_names[0]))
        } else {
            acc
        };
        build_alias_from(acc2, defs, k + 1)
    }
}

/// The waterfall: a programme's XMLTV channel id resolves by provider EPG
/// id first; only when no channel carries that id does the sanitized-name
/// fallback run, through the alias table. The flag says the fallback was
/// used.
pub open spec fn resolve_targets_spec(
    idi: Seq<IdBucketView>,
    names: Seq<IdBucketView>,
    aliases: Seq<AliasView>,
    ch: Seq<char>,
) -> Option<(Seq<i64>, bool)> {
    if has_key(idi, ch) {
        Some((ids_of(idi, ch), false))
    } else if has_alias(aliases, ch) && has_key(names, alias_of(aliases, ch)) {
        Some((ids_of(names, alias_of(aliases, ch)), true))
    } else {
        None
    }
}

/// An id match always takes precedence: when some channel carries the
/// programme's id as its provider EPG id, the match is by id, whatever the
/// name index holds.
pub proof fn lemma_waterfall_id_precedence(
    idi: Seq<IdBucketView>,
    names: Seq<IdBucketView>,
    aliases: Seq<AliasView>,
    ch: Seq<char>,
)
    requires
        has_key(idi, ch),
    ensures
        resolve_targets_spec(idi, names, aliases, ch) == Some((ids_of(idi, ch), false)),
{
}

/// A programme with no id match and no resolvable alias matches nothing.
pub proof fn lemma_waterfall_unmatched(
    idi: Seq<IdBucketView>,
    names: Seq<IdBucketView>,
    aliases: Seq<AliasView>,
    ch: Seq<char>,
)
    requires
        !has_key(idi, ch),
        !has_alias(aliases, ch) || !has_key(names, alias_of(aliases, ch)),
    ensures
        resolve_targets_spec(idi, names, aliases, ch) is None,
{
}

/// What the checksum of a text is.
pub uninterp spec fn crc32_of(s: Seq<char>) -> u32;

/// Relies on `crc32fast::hash` over the text's UTF-8 bytes; the result
/// depends on the text alone.
#[verifier::external_body]
fn crc32_str(s: &str) -> (r: u32)
    ensures
        r == crc32_of(s@),
{
    crc32fast::hash(s.as_bytes())
}

/// The text hashed for a guide row's key: channel id, raw start stamp and
/// title, joined by dashes — unique per channel for one programme.
pub open spec fn entry_key_spec(cid: i64, prog: ProgrammeView) -> Seq<char> {
    crate::text::i64_dec(cid) + "-"@ + prog.start + "-"@ + prog.title
}

/// The guide row one matched channel gets for a programme: the key hash as
/// id, and both stamps normalized to UTC.
pub open spec fn entry_for(cid: i64, prog: ProgrammeView) -> EpgEntryView {
    EpgEntryView {
        id: crc32_of(entry_key_spec(cid, prog)) as i64,
        channel_id: cid,
        title: prog.title,
        description: prog.desc,
        start_time: convert_to_iso_spec(prog.start),
        end_time: convert_to_iso_spec(prog.stop),
    }
}

/// A guide row with this id exists.
pub open spec fn has_entry_id(s: Seq<EpgEntryView>, id: i64) -> bool {
    exists|i: int| 0 <= i < s.len() && (#[trigger] s[i]).id == id
}

/// Inserts one guide row, silently keeping an existing row with the same
/// id (insert-or-ignore).
pub open spec fn spec_insert_entry(epg: Seq<EpgEntryView>, e: EpgEntryView) -> Seq<EpgEntryView> {
    if has_entry_id(epg, e.id) {
        epg
    } else {
        epg.push(e)
    }
}

/// Inserts a programme's rows for the target channels from index `j` on.
pub open spec fn insert_prog_targets(
    epg: Seq<EpgEntryView>,
    ids: Seq<i64>,
    j: int,
    prog: ProgrammeView,
) -> Seq<EpgEntryView>
    decreases ids.len() - j,
{
    if j < 0 || j >= ids.len() {
        epg
    } else {
        insert_prog_targets(spec_insert_entry(epg, entry_for(ids[j], prog)), ids, j + 1, prog)
    }
}

/// Applies the programmes from index `k` on: each resolved programme
/// inserts one row per matched channel; an unresolved one is dropped.
pub open spec fn apply_programmes(
    epg: Seq<EpgEntryView>,
    progs: Seq<ProgrammeView>,
    k: int,
    idi: Seq<IdBucketView>,
    names: Seq<IdBucketView>,
    aliases: Seq<AliasView>,
) -> Seq<EpgEntryView>
    decreases progs.len() - k,
{
    if k < 0 || k >= progs.len() {
        epg
    } else {
        let nxt = match resolve_targets_spec(idi, names, aliases, progs[k].channel) {
            Some(t) => insert_prog_targets(epg, t.0, 0, progs[k]),
            None => epg,
        };
        apply_programmes(nxt, progs, k + 1, idi, names, aliases)
    }
}

/// Every id the index holds names an existing channel.
pub open spec fn index_ids_ok(s: Seq<IdBucketView>, chans: Seq<ChannelView>) -> bool {
    forall|b: int, t: int|
        0 <= b < s.len() && 0 <= t < s[b].ids.len() ==> has_channel(
            chans,
            #[trigger] s[b].ids[t],
        )
}

/// Pushing an existing channel's id keeps the index's ids good.
proof fn lemma_index_push_ids_ok(
    s: Seq<IdBucketView>,
    key: Seq<char>,
    id: i64,
    chans: Seq<ChannelView>,
)
    requires
        index_ids_ok(s, chans),
        has_channel(chans, id),
    ensures
        index_ids_ok(spec_index_push(s, key, id), chans),
{
    let r = spec_index_push(s, key, id);
    assert forall|b: int, t: int|
        0 <= b < r.len() && 0 <= t < r[b].ids.len() implies has_channel(
        chans,
        r[b].ids[t],
    ) by {
        if has_key(s, key) {
            if s[b].key == key {
                if t < s[b].ids.len() {
                    assert(r[b].ids[t] == s[b].ids[t]);
                } else {
                    assert(r[b].ids[t] == id);
                }
            } else {
                assert(r[b].ids[t] == s[b].ids[t]);
            }
        } else {
            if b < s.len() {
                assert(r[b].ids[t] == s[b].ids[t]);
            } else {
                assert(r[b].ids[t] == id);
            }
        }
    }
}

/// The by-EPG-id index only holds existing channels' ids.
proof fn lemma_build_id_index_ids_ok(
    acc: Seq<IdBucketView>,
    chans: Seq<ChannelView>,
    pid: i64,
    k: int,
)
    requires
        index_ids_ok(acc, chans),
    ensures
        index_ids_ok(build_id_index_from(acc, chans, pid, k), chans),
    decreases chans.len() - k,
{
    if k < 0 || k >= chans.len() {
    } else {
        let c = chans[k];
        if c.playlist_id == pid {
            match c.epg_channel_id {
                Some(eid) => {
                    assert(has_channel(chans, c.id));
                    lemma_index_push_ids_ok(acc, eid, c.id, chans);
                    lemma_build_id_index_ids_ok(spec_index_push(acc, eid, c.id), chans, pid, k + 1);
                },
                None => {
                    lemma_build_id_index_ids_ok(acc, chans, pid, k + 1);
                },
            }
        } else {
            lemma_build_id_index_ids_ok(acc, chans, pid, k + 1);
        }
    }
}

/// The by-name index only holds existing channels' ids.
proof fn lemma_build_name_index_ids_ok(
    acc: Seq<IdBucketView>,
    chans: Seq<ChannelView>,
    pid: i64,
    k: int,
)
    requires
        index_ids_ok(acc, chans),
    ensures
        index_ids_ok(build_name_index_from(acc, chans, pid, k), chans),
    decreases chans.len() - k,
{
    if k < 0 || k >= chans.len() {
    } else {
        let c = chans[k];
        if c.playlist_id == pid {
            assert(has_channel(chans, c.id));
            lemma_index_push_ids_ok(acc, sanitize_spec(c.name), c.id, chans);
            lemma_build_name_index_ids_ok(
                spec_index_push(acc, sanitize_spec(c.name), c.id),
                chans,
                pid,
                k + 1,
            );
        } else {
            lemma_build_name_index_ids_ok(acc, chans, pid, k + 1);
        }
    }
}

/// Inserting a programme's rows keeps guide ids unique and every row's
/// channel existing, when the target ids name existing channels.
proof fn lemma_insert_targets_props(
    epg: Seq<EpgEntryView>,
    ids: Seq<i64>,
    j: int,
    prog: ProgrammeView,
    chans: Seq<ChannelView>,
)
    requires
        forall|a: int, b: int|
            0 <= a < b < epg.len() ==> (#[trigger] epg[a]).id != (#[trigger] epg[b]).id,
        forall|a: int| 0 <= a < epg.len() ==> has_channel(chans, (#[trigger] epg[a]).channel_id),
        forall|t: int| 0 <= t < ids.len() ==> has_channel(chans, #[trigger] ids[t]),
    ensures
        ({
            let r = insert_prog_targets(epg, ids, j, prog);
            &&& forall|a: int, b: int|
                0 <= a < b < r.len() ==> (#[trigger] r[a]).id != (#[trigger] r[b]).id
            &&& forall|a: int| 0 <= a < r.len() ==> has_channel(chans, (#[trigger] r[a]).channel_id)
        }),
    decreases ids.len() - j,
{
    if j < 0 || j >= ids.len() {
    } else {
        let e = entry_for(ids[j], prog);
        let nxt = spec_insert_entry(epg, e);
        if has_entry_id(epg, e.id) {
        } else {
            assert forall|a: int, b: int|
                0 <= a < b < nxt.len() implies (#[trigger] nxt[a]).id != (#[trigger] nxt[b]).id by {
                if b == epg.len() {
                    assert(nxt[a] == epg[a]);
                }
            }
        }
        lemma_insert_targets_props(nxt, ids, j + 1, prog, chans);
    }
}

/// Applying the programmes keeps guide ids unique and every row's channel
/// existing.
proof fn lemma_apply_programmes_props(
    epg: Seq<EpgEntryView>,
    progs: Seq<ProgrammeView>,
    k: int,
    idi: Seq<IdBucketView>,
    names: Seq<IdBucketView>,
    aliases: Seq<AliasView>,
    chans: Seq<ChannelView>,
)
    requires
        forall|a: int, b: int|
            0 <= a < b < epg.len() ==> (#[trigger] epg[a]).id != (#[trigger] epg[b]).id,
        forall|a: int| 0 <= a < epg.len() ==> has_channel(chans, (#[trigger] epg[a]).channel_id),
        index_ids_ok(idi, chans),
        index_ids_ok(names, chans),
    ensures
        ({
            let r = apply_programmes(epg, progs, k, idi, names, aliases);
            &&& forall|a: int, b: int|
                0 <= a < b < r.len() ==> (#[trigger] r[a]).id != (#[trigger] r[b]).id
            &&& forall|a: int| 0 <= a < r.len() ==> has_channel(chans, (#[trigger] r[a]).channel_id)
        }),
    decreases progs.len() - k,
{
    if k < 0 || k >= progs.len() {
    } else {
        let nxt = match resolve_targets_spec(idi, names, aliases, progs[k].channel) {
            Some(t) => insert_prog_targets(epg, t.0, 0, progs[k]),
            None => epg,
        };
        match resolve_targets_spec(idi, names, aliases, progs[k].channel) {
            Some(t) => {
                assert forall|q: int| 0 <= q < t.0.len() implies has_channel(
                    chans,
                    #[trigger] t.0[q],
                ) by {
                    if has_key(idi, progs[k].channel) {
                        let w = choose|w: int|
                            0 <= w < idi.len() && (#[trigger] idi[w]).key == progs[k].channel;
                        assert(t.0 == idi[w].ids);
                        assert(has_channel(chans, idi[w].ids[q]));
                    } else {
                        let al = alias_of(aliases, progs[k].channel);
                        let w = choose|w: int|
                            0 <= w < names.len() && (#[trigger] names[w]).key == al;
                        assert(t.0 == names[w].ids);
                        assert(has_channel(chans, names[w].ids[q]));
                    }
                }
                lemma_insert_targets_props(epg, t.0, 0, progs[k], chans);
            },
            None => {},
        }
        lemma_apply_programmes_props(nxt, progs, k + 1, idi, names, aliases, chans);
    }
}

/// Builds the two lookup indices over one playlist's channels, in table
/// order.
pub fn build_indices(catalog: &Catalog, pid: i64) -> (r: (Vec<IdBucket>, Vec<IdBucket>))
    ensures
        index_wf(buckets_view(r.0@)),
        index_wf(buckets_view(r.1@)),
        buckets_view(r.0@) == build_id_index_from(Seq::empty(), catalog@.channels, pid, 0),
        buckets_view(r.1@) == build_name_index_from(Seq::empty(), catalog@.channels, pid, 0),
{
    let ghost chans = catalog@.channels;
    let mut idi: Vec<IdBucket> = Vec::new();
    let mut names: Vec<IdBucket> = Vec::new();
    let n = catalog.channels.len();
    proof {
        assert(buckets_view(idi@) =~= Seq::<IdBucketView>::empty());
        assert(buckets_view(names@) =~= Seq::<IdBucketView>::empty());
    }
    let mut i: usize = 0;
    while i < n
        invariant
            n == chans.len(),
            catalog@.channels == chans,
            i <= n,
            index_wf(buckets_view(idi@)),
            index_wf(buckets_view(names@)),
            build_id_index_from(buckets_view(idi@), chans, pid, i as int) == build_id_index_from(
                Seq::empty(),
                chans,
                pid,
                0,
            ),
            build_name_index_from(buckets_view(names@), chans, pid, i as int)
                == build_name_index_from(Seq::empty(), chans, pid, 0),
        decreases n - i,
    {
        proof {
            assert(chans[i as int] == catalog.channels@[i as int]@);
        }
        if catalog.channels[i].playlist_id == pid {
            let cid = catalog.channels[i].id;
            match &catalog.channels[i].epg_channel_id {
                Some(eid) => {
                    proof {
                        assert(chans[i as int].epg_channel_id == Some(eid@));
                    }
                    index_push(&mut idi, eid.as_str(), cid);
                },
                None => {},
            }
            let key = crate::sanitize::sanitize_name(catalog.channels[i].name.as_str());
            index_push(&mut names, key.as_str(), cid);
        }
        i = i + 1;
    }
    (idi, names)
}

/// Builds the alias table from the XMLTV channel definitions, in document
/// order.
pub fn build_alias_table(defs: &Vec<XmlChannelDef>) -> (r: Vec<Alias>)
    ensures
        alias_wf(aliases_view(r@)),
        aliases_view(r@) == build_alias_from(Seq::empty(), defs_view(defs@), 0),
{
    let ghost dv = defs_view(defs@);
    let mut table: Vec<Alias> = Vec::new();
    let n = defs.len();
    proof {
        assert(aliases_view(table@) =~= Seq::<AliasView>::empty());
    }
    let mut i: usize = 0;
    while i < n
        invariant
            n == dv.len(),
            defs_view(defs@) == dv,
            i <= n,
            alias_wf(aliases_view(table@)),
            build_alias_from(aliases_view(table@), dv, i as int) == build_alias_from(
                Seq::empty(),
                dv,
                0,
            ),
        decreases n - i,
    {
        proof {
            assert(dv[i as int] == defs@[i as int]@);
        }
        if defs[i].display_names.len() > 0 {
            let key = defs[i].id.clone();
            let val = crate::sanitize::sanitize_name(defs[i].display_names[0].as_str());
            proof {
                assert(dv[i as int].display_names[0] == defs@[i as int].display_names@[0]@);
            }
            alias_insert(&mut table, key, val);
        }
        i = i + 1;
    }
    table
}

/// A guide row with this id already stands in the table.
fn vec_has_entry_id(v: &Vec<EpgEntry>, id: i64) -> (r: bool)
    ensures
        r == has_entry_id(crate::store::epg_view(v@), id),
{
    let n = v.len();
    for i in 0..n
        invariant
            n == v@.len(),
            forall|j: int|
                0 <= j < i ==> (#[trigger] crate::store::epg_view(v@)[j]).id != id,
    {
        if v[i].id == id {
            assert(crate::store::epg_view(v@)[i as int].id == id);
            return true;
        }
    }
    false
}

/// Builds one matched channel's guide row for a programme.
fn build_entry(cid: i64, prog: &Programme) -> (r: EpgEntry)
    ensures
        r@ == entry_for(cid, prog@),
{
    let mut kv = crate::text::i64_to_chars(cid);
    crate::text::append_str_chars(&mut kv, "-");
    crate::text::append_str_chars(&mut kv, prog.start.as_str());
    crate::text::append_str_chars(&mut kv, "-");
    crate::text::append_str_chars(&mut kv, prog.title.as_str());
    proof {
        assert(kv@ =~= entry_key_spec(cid, prog@));
    }
    let key = crate::text::chars_to_string(&kv);
    let hash = crc32_str(key.as_str());
    EpgEntry {
        id: hash as i64,
        channel_id: cid,
        title: prog.title.clone(),
        description: crate::model::clone_opt_string(&prog.desc),
        start_time: crate::timefmt::convert_to_iso(prog.start.as_str()),
        end_time: crate::timefmt::convert_to_iso(prog.stop.as_str()),
    }
}

/// The catalog after one playlist's reconciliation: its two channel
/// indices and the document's alias table decide each programme's target
/// channels, and one guide row per match is inserted (or ignored on a key
/// collision). Nothing else moves.
pub open spec fn spec_reconcile_playlist(
    c: CatalogView,
    pid: i64,
    defs: Seq<XmlChannelDefView>,
    progs: Seq<ProgrammeView>,
) -> CatalogView {
    let idi = build_id_index_from(Seq::empty(), c.channels, pid, 0);
    let names = build_name_index_from(Seq::empty(), c.channels, pid, 0);
    let aliases = build_alias_from(Seq::empty(), defs, 0);
    CatalogView { epg: apply_programmes(c.epg, progs, 0, idi, names, aliases), ..c }
}

/// Inserts a programme's guide rows for every target channel, in list
/// order, ignoring key collisions.
fn insert_programme_rows(catalog: &mut Catalog, ids: &Vec<i64>, prog: &Programme)
    ensures
        final(catalog).playlists == old(catalog).playlists,
        final(catalog).categories == old(catalog).categories,
        final(catalog).channels == old(catalog).channels,
        final(catalog).recently_watched == old(catalog).recently_watched,
        final(catalog).next_playlist_id == old(catalog).next_playlist_id,
        final(catalog).next_category_id == old(catalog).next_category_id,
        final(catalog)@.epg == insert_prog_targets(old(catalog)@.epg, ids@, 0, prog@),
{
    let ghost epg0 = old(catalog)@.epg;
    let m = ids.len();
    let mut j: usize = 0;
    while j < m
        invariant
            m == ids@.len(),
            j <= m,
            catalog.playlists == old(catalog).playlists,
            catalog.categories == old(catalog).categories,
            catalog.channels == old(catalog).channels,
            catalog.recently_watched == old(catalog).recently_watched,
            catalog.next_playlist_id == old(catalog).next_playlist_id,
            catalog.next_category_id == old(catalog).next_category_id,
            insert_prog_targets(catalog@.epg, ids@, j as int, prog@) == insert_prog_targets(
                epg0,
                ids@,
                0,
                prog@,
            ),
        decreases m - j,
    {
        let cid = ids[j];
        let entry = build_entry(cid, prog);
        let ghost acc0 = catalog@.epg;
        if !vec_has_entry_id(&catalog.epg_entries, entry.id) {
            catalog.epg_entries.push(entry);
            proof {
                assert(catalog@.epg =~= acc0.push(entry_for(ids@[j as int], prog@)));
                assert(catalog@.epg == spec_insert_entry(
                    acc0,
                    entry_for(ids@[j as int], prog@),
                ));
            }
        } else {
            proof {
                assert(catalog@.epg == spec_insert_entry(
                    acc0,
                    entry_for(ids@[j as int], prog@),
                ));
            }
        }
        j = j + 1;
    }
    proof {
        assert(insert_prog_targets(catalog@.epg, ids@, m as int, prog@) == catalog@.epg);
    }
}

/// Reconciles one playlist's guide against a parsed XMLTV document, as
/// `spec_reconcile_playlist` says.
#[verifier::rlimit(60)]
pub fn reconcile_playlist(
    catalog: &mut Catalog,
    pid: i64,
    defs: &Vec<XmlChannelDef>,
    programmes: &Vec<Programme>,
)
    requires
        catalog_wf(old(catalog)@),
    ensures
        catalog_wf(final(catalog)@),
        final(catalog)@ == spec_reconcile_playlist(
            old(catalog)@,
            pid,
            defs_view(defs@),
            progs_view(programmes@),
        ),
{
    let ghost c0 = old(catalog)@;
    let ghost pv = progs_view(programmes@);
    let (idi, names) = build_indices(catalog, pid);
    let aliases = build_alias_table(defs);
    let ghost idiv = buckets_view(idi@);
    let ghost namesv = buckets_view(names@);
    let ghost aliasesv = aliases_view(aliases@);

    let pn = programmes.len();
    let mut k: usize = 0;
    while k < pn
        invariant
            pn == pv.len(),
            k <= pn,
            catalog.playlists == old(catalog).playlists,
            catalog.categories == old(catalog).categories,
            catalog.channels == old(catalog).channels,
            catalog.recently_watched == old(catalog).recently_watched,
            catalog.next_playlist_id == old(catalog).next_playlist_id,
            catalog.next_category_id == old(catalog).next_category_id,
            progs_view(programmes@) == pv,
            buckets_view(idi@) == idiv,
            buckets_view(names@) == namesv,
            aliases_view(aliases@) == aliasesv,
            index_wf(idiv),
            index_wf(namesv),
            alias_wf(aliasesv),
            apply_programmes(catalog@.epg, pv, k as int, idiv, namesv, aliasesv)
                == apply_programmes(c0.epg, pv, 0, idiv, namesv, aliasesv),
        decreases pn - k,
    {
        proof {
            assert(pv[k as int] == programmes@[k as int]@);
        }
        let ghost epg_before = catalog@.epg;
        let ghost ch = pv[k as int].channel;
        match index_lookup(&idi, programmes[k].channel.as_str()) {
            Some(b) => {
                proof {
                    lemma_bucket_at_index(idiv, b as int);
                    assert(resolve_targets_spec(idiv, namesv, aliasesv, ch) == Some(
                        (idiv[b as int].ids, false),
                    ));
                }
                insert_programme_rows(catalog, &idi[b].ids, &programmes[k]);
                proof {
                    assert(idi@[b as int].ids@ == idiv[b as int].ids);
                    assert(apply_programmes(epg_before, pv, k as int, idiv, namesv, aliasesv)
                        == apply_programmes(catalog@.epg, pv, k + 1, idiv, namesv, aliasesv));
                }
            },
            None => {
                match alias_lookup(&aliases, programmes[k].channel.as_str()) {
                    Some(a) => {
                        proof {
                            let w = choose|w: int|
                                0 <= w < aliasesv.len() && (#[trigger] aliasesv[w]).key == ch;
                            if w != a {
                                if w < a {
                                    assert(aliasesv[w].key != aliasesv[a as int].key);
                                } else {
                                    assert(aliasesv[a as int].key != aliasesv[w].key);
                                }
                            }
                            assert(alias_of(aliasesv, ch) == aliasesv[a as int].val);
                        }
                        match index_lookup(&names, aliases[a].val.as_str()) {
                            Some(b2) => {
                                proof {
                                    lemma_bucket_at_index(namesv, b2 as int);
                                    assert(resolve_targets_spec(idiv, namesv, aliasesv, ch)
                                        == Some((namesv[b2 as int].ids, true)));
                                }
                                insert_programme_rows(catalog, &names[b2].ids, &programmes[k]);
                                proof {
                                    assert(names@[b2 as int].ids@ == namesv[b2 as int].ids);
                                    assert(apply_programmes(
                                        epg_before,
                                        pv,
                                        k as int,
                                        idiv,
                                        namesv,
                                        aliasesv,
                                    ) == apply_programmes(
                                        catalog@.epg,
                                        pv,
                                        k + 1,
                                        idiv,
                                        namesv,
                                        aliasesv,
                                    ));
                                }
                            },
                            None => {
                                proof {
                                    assert(resolve_targets_spec(idiv, namesv, aliasesv, ch)
                                        is None);
                                    assert(apply_programmes(
                                        epg_before,
                                        pv,
                                        k as int,
                                        idiv,
                                        namesv,
                                        aliasesv,
                                    ) == apply_programmes(
                                        catalog@.epg,
                                        pv,
                                        k + 1,
                                        idiv,
                                        namesv,
                                        aliasesv,
                                    ));
                                }
                            },
                        }
                    },
                    None => {
                        proof {
                            assert(resolve_targets_spec(idiv, namesv, aliasesv, ch) is None);
                            assert(apply_programmes(
                                epg_before,
                                pv,
                                k as int,
                                idiv,
                                namesv,
                                aliasesv,
                            ) == apply_programmes(
                                catalog@.epg,
                                pv,
                                k + 1,
                                idiv,
                                namesv,
                                aliasesv,
                            ));
                        }
                    },
                }
            },
        }
        k = k + 1;
    }
    proof {
        assert(apply_programmes(catalog@.epg, pv, pn as int, idiv, namesv, aliasesv)
            == catalog@.epg);
        assert(catalog@.epg == apply_programmes(c0.epg, pv, 0, idiv, namesv, aliasesv));
        assert forall|a: int, b: int|
            0 <= a < b < c0.epg.len() implies (#[trigger] c0.epg[a]).id != (
        #[trigger] c0.epg[b]).id by {}
        lemma_build_id_index_ids_ok(Seq::empty(), c0.channels, pid, 0);
        lemma_build_name_index_ids_ok(Seq::empty(), c0.channels, pid, 0);
        lemma_apply_programmes_props(c0.epg, pv, 0, idiv, namesv, aliasesv, c0.channels);
        let c1 = catalog@;
        assert(c1.channels == c0.channels);
        assert forall|i: int, j: int|
            0 <= i < j < c1.epg.len() implies (#[trigger] c1.epg[i]).id != (
        #[trigger] c1.epg[j]).id by {
            let r = apply_programmes(c0.epg, pv, 0, idiv, namesv, aliasesv);
            assert(r[i].id != r[j].id);
        }
        assert forall|i: int| 0 <= i < c1.epg.len() implies has_channel(
            c1.channels,
            (#[trigger] c1.epg[i]).channel_id,
        ) by {
            let r = apply_programmes(c0.epg, pv, 0, idiv, namesv, aliasesv);
            assert(has_channel(c0.channels, r[i].channel_id));
        }
        assert(c1.playlists == c0.playlists);
        assert(c1.categories == c0.categories);
        assert(c1.recent == c0.recent);
        assert forall|i: int, j: int|
            0 <= i < j < c1.playlists.len() implies (#[trigger] c1.playlists[i]).id != (
        #[trigger] c1.playlists[j]).id by {
            assert(c1.playlists[i] == c0.playlists[i]);
            assert(c1.playlists[j] == c0.playlists[j]);
        }
        assert forall|i: int, j: int|
            0 <= i < j < c1.categories.len() implies (#[trigger] c1.categories[i]).id != (
        #[trigger] c1.categories[j]).id by {
            assert(c1.categories[i] == c0.categories[i]);
            assert(c1.categories[j] == c0.categories[j]);
        }
        assert forall|i: int, j: int|
            0 <= i < j < c1.channels.len() implies (#[trigger] c1.channels[i]).id != (
        #[trigger] c1.channels[j]).id by {
            assert(c1.channels[i] == c0.channels[i]);
            assert(c1.channels[j] == c0.channels[j]);
        }
        assert forall|i: int, j: int|
            0 <= i < j < c1.recent.len() implies (#[trigger] c1.recent[i]).channel_id != (
        #[trigger] c1.recent[j]).channel_id by {
            assert(c1.recent[i] == c0.recent[i]);
            assert(c1.recent[j] == c0.recent[j]);
        }
        assert forall|i: int| 0 <= i < c1.categories.len() implies has_playlist(
            c1.playlists,
            (#[trigger] c1.categories[i]).playlist_id,
        ) by {
            assert(c1.categories[i] == c0.categories[i]);
            assert(has_playlist(c0.playlists, c0.categories[i].playlist_id));
        }
        assert forall|i: int| 0 <= i < c1.channels.len() implies has_playlist(
            c1.playlists,
            (#[trigger] c1.channels[i]).playlist_id,
        ) by {
            assert(c1.channels[i] == c0.channels[i]);
            assert(has_playlist(c0.playlists, c0.channels[i].playlist_id));
        }
        assert forall|i: int| 0 <= i < c1.recent.len() implies has_channel(
            c1.channels,
            (#[trigger] c1.recent[i]).channel_id,
        ) by {
            assert(c1.recent[i] == c0.recent[i]);
            assert(has_channel(c0.channels, c0.recent[i].channel_id));
        }
        assert forall|i: int| 0 <= i < c1.playlists.len() implies (
        #[trigger] c1.playlists[i]).id < c1.next_playlist_id by {
            assert(c1.playlists[i] == c0.playlists[i]);
        }
        assert forall|i: int| 0 <= i < c1.categories.len() implies (
        #[trigger] c1.categories[i]).id < c1.next_category_id by {
            assert(c1.categories[i] == c0.categories[i]);
        }
        assert(catalog_wf(catalog@));
    }
}

/// A catalog whose guide table alone was replaced is well formed when the
/// new rows have unique ids and existing channels.
proof fn lemma_wf_with_epg(c0: CatalogView, e: Seq<EpgEntryView>)
    requires
        catalog_wf(c0),
        forall|i: int, j: int| 0 <= i < j < e.len() ==> (#[trigger] e[i]).id != (#[trigger] e[j]).id,
        forall|i: int| 0 <= i < e.len() ==> has_channel(c0.channels, (#[trigger] e[i]).channel_id),
    ensures
        catalog_wf(CatalogView { epg: e, ..c0 }),
{
    let c1 = CatalogView { epg: e, ..c0 };
    assert(c1.playlists == c0.playlists);
    assert(c1.categories == c0.categories);
    assert(c1.channels == c0.channels);
    assert(c1.recent == c0.recent);
}

/// One playlist the reconciliation run covers: an active provider-backed
/// playlist with credentials.
pub struct EpgSource {
    pub playlist_id: i64,
    pub url: String,
    pub username: String,
    pub password: String,
}

/// Abstract value of a reconciliation source.
pub struct EpgSourceView {
    pub playlist_id: i64,
    pub url: Seq<char>,
    pub username: Seq<char>,
    pub password: Seq<char>,
}

impl View for EpgSource {
    type V = EpgSourceView;

    open spec fn view(&self) -> EpgSourceView {
        EpgSourceView {
            playlist_id: self.playlist_id,
            url: self.url@,
            username: self.username@,
            password: self.password@,
        }
    }
}

/// Abstract value of the source list.
pub open spec fn sources_view(v: Seq<EpgSource>) -> Seq<EpgSourceView> {
    Seq::new(v.len(), |i: int| v[i]@)
}

/// A playlist the reconciliation covers: active, provider-backed, with
/// both credentials present.
pub open spec fn epg_eligible() -> spec_fn(crate::model::PlaylistView) -> bool {
    |p: crate::model::PlaylistView|
        p.is_active && p.kind == crate::model::PlaylistKind::Xtream && p.username is Some
            && p.password is Some
}

/// The source a covered playlist yields.
pub open spec fn source_fn() -> spec_fn(crate::model::PlaylistView) -> EpgSourceView {
    |p: crate::model::PlaylistView|
        EpgSourceView {
            playlist_id: p.id,
            url: p.url,
            username: p.username->Some_0,
            password: p.password->Some_0,
        }
}

/// Starts a reconciliation run: wipes the whole guide table (a single
/// global wipe, before any playlist is processed) and lists the playlists
/// the run covers, in table order.
pub fn reconcile_begin(catalog: &mut Catalog) -> (r: Vec<EpgSource>)
    requires
        catalog_wf(old(catalog)@),
    ensures
        catalog_wf(final(catalog)@),
        final(catalog)@ == (CatalogView { epg: Seq::empty(), ..old(catalog)@ }),
        sources_view(r@) == old(catalog)@.playlists.filter(epg_eligible()).map_values(source_fn()),
{
    let ghost c0 = old(catalog)@;
    catalog.epg_entries = Vec::new();
    proof {
        assert(catalog@.epg =~= Seq::<EpgEntryView>::empty());
        assert(catalog@ == (CatalogView { epg: Seq::<EpgEntryView>::empty(), ..c0 }));
        lemma_wf_with_epg(c0, Seq::<EpgEntryView>::empty());
    }
    let mut out: Vec<EpgSource> = Vec::new();
    let n = catalog.playlists.len();
    proof {
        reveal(Seq::filter);
        assert(c0.playlists.subrange(0, 0).filter(epg_eligible()).map_values(source_fn())
            =~= sources_view(out@));
    }
    for i in 0..n
        invariant
            n == c0.playlists.len(),
            catalog.playlists == old(catalog).playlists,
            catalog@.playlists == c0.playlists,
            sources_view(out@) == c0.playlists.subrange(0, i as int).filter(
                epg_eligible(),
            ).map_values(source_fn()),
    {
        let ghost u = c0.playlists.subrange(0, i + 1);
        proof {
            assert(u.drop_last() =~= c0.playlists.subrange(0, i as int));
            assert(u.last() == c0.playlists[i as int]);
        }
        proof {
            assert(c0.playlists[i as int] == catalog.playlists@[i as int]@);
        }
        let p = &catalog.playlists[i];
        if p.is_active && p.kind == crate::model::PlaylistKind::Xtream {
            match (&p.username, &p.password) {
                (Some(user), Some(pass)) => {
                    proof {
                        assert(epg_eligible()(c0.playlists[i as int]));
                    }
                    let ghost out0 = sources_view(out@);
                    out.push(
                        EpgSource {
                            playlist_id: p.id,
                            url: p.url.clone(),
                            username: user.clone(),
                            password: pass.clone(),
                        },
                    );
                    proof {
                        reveal(Seq::filter);
                        assert(sources_view(out@) =~= out0.push(
                            source_fn()(c0.playlists[i as int]),
                        ));
                        assert(u.filter(epg_eligible()) =~= u.drop_last().filter(
                            epg_eligible(),
                        ).push(u.last()));
                        assert(sources_view(out@) =~= u.filter(epg_eligible()).map_values(
                            source_fn(),
                        ));
                    }
                },
                _ => {
                    proof {
                        reveal(Seq::filter);
                        assert(!epg_eligible()(c0.playlists[i as int]));
                        assert(sources_view(out@) =~= u.filter(epg_eligible()).map_values(
                            source_fn(),
                        ));
                    }
                },
            }
        } else {
            proof {
                reveal(Seq::filter);
                assert(!epg_eligible()(c0.playlists[i as int]));
                assert(sources_view(out@) =~= u.filter(epg_eligible()).map_values(source_fn()));
            }
        }
    }
    proof {
        assert(c0.playlists.subrange(0, n as int) =~= c0.playlists);
    }
    out
}

} // verus!
