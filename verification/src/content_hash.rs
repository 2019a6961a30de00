//! Content hashing used to detect changes in imported component records, and reading,
//! deciding and recording the items of a synchronisation run.
use vstd::prelude::*;
use vstd::string::StringSliceAdditionalSpecFns;
use crate::text::{
    append_chars, append_str, chars_of, decimal_text, hex_alphabet, i64_decimal, string_from_chars,
    trim, trim_chars, u64_decimal, decimal_digits,
};
use crate::symgen::opt_string_view;

verus! {

/// The FNV-1a 64-bit offset basis.
pub open spec fn fnv_offset_basis() -> u64 {
    0xcbf29ce484222325u64
}

/// The FNV-1a 64-bit prime.
pub open spec fn fnv_prime() -> u64 {
    0x100000001b3u64
}

/// FNV-1a 64-bit hash of a byte sequence: start from the offset basis and, for each
/// byte in order, xor it in and multiply by the prime modulo 2^64.
pub open spec fn spec_fnv1a_64(data: Seq<u8>) -> u64
    decreases data.len(),
{
    if data.len() == 0 {
        fnv_offset_basis()
    } else {
        let h = spec_fnv1a_64(data.drop_last());
        (h ^ (data.last() as u64)).wrapping_mul(fnv_prime())
    }
}

/// FNV-1a 64-bit hash.
pub fn fnv1a_64(data: &[u8]) -> (hash: u64)
    ensures
        hash == spec_fnv1a_64(data@),
{
    let mut hash: u64 = 0xcbf29ce484222325;
    let mut i: usize = 0;
    while i < data.len()
        invariant
            i <= data@.len(),
            hash == spec_fnv1a_64(data@.take(i as int)),
        decreases data@.len() - i,
    {
        proof {
            assert(data@.take(i as int + 1).drop_last() =~= data@.take(i as int));
        }
        hash ^= data[i] as u64;
        hash = hash.wrapping_mul(0x100000001b3);
        i = i + 1;
    }
    proof {
        assert(data@.take(data@.len() as int) =~= data@);
    }
    hash
}

/// The `i`-th hexadecimal digit (0 = most significant) of a 64-bit value.
pub open spec fn nibble(h: u64, i: int) -> u64 {
    (h >> ((60 - 4 * i) as u64)) & 0xf
}

/// A 64-bit value as sixteen lower-case hexadecimal digits, zero-padded
/// (`format!("{:016x}", h)`).
pub open spec fn hex16(h: u64) -> Seq<char> {
    Seq::new(16, |i: int| hex_alphabet()[nibble(h, i) as int])
}

/// The content hash of a JSON text: FNV-1a 64 of the UTF-8 bytes of the text without
/// leading and trailing white space, as sixteen hexadecimal digits.
pub open spec fn content_hash_of(json: Seq<char>) -> Seq<char> {
    hex16(spec_fnv1a_64(vstd::utf8::encode_utf8(trim_chars(json))))
}

/// Sixteen hexadecimal digits of a 64-bit value.
pub fn hex16_chars(h: u64) -> (v: Vec<char>)
    ensures
        v@ == hex16(h),
{
    let table: Vec<char> = vec!['0', '1', '2', '3', '4', '5', '6', '7', '8', '9', 'a', 'b', 'c', 'd', 'e', 'f'];
    proof {
        assert(table@ =~= hex_alphabet());
    }
    let mut v: Vec<char> = Vec::new();
    let mut i: u64 = 0;
    while i < 16
        invariant
            i <= 16,
            table@ == hex_alphabet(),
            v@.len() == i,
            forall|k: int| 0 <= k < i ==> v@[k] == hex_alphabet()[nibble(h, k) as int],
        decreases 16 - i,
    {
        let sh: u64 = 60 - 4 * i;
        let d: u64 = (h >> sh) & 0xf;
        assert(d < 16) by (bit_vector)
            requires
                d == (h >> sh) & 0xf,
        ;
        v.push(table[d as usize]);
        i = i + 1;
    }
    proof {
        assert(v@ =~= hex16(h));
    }
    v
}

/// Content hash of a raw import JSON, used to detect changed records: the FNV-1a
/// 64-bit hash of the trimmed text's UTF-8 bytes, as sixteen lower-case hex digits.
pub fn compute_content_hash(json: &str) -> (r: String)
    ensures
        r@ == content_hash_of(json@),
        r@.len() == 16,
{
    let t = trim(json);
    let h = fnv1a_64(t.as_bytes());
    let v = hex16_chars(h);
    string_from_chars(v.as_slice())
}

/// Every content hash is sixteen lower-case hexadecimal digits, whatever the input.
pub proof fn lemma_content_hash_shape(json: Seq<char>)
    ensures
        content_hash_of(json).len() == 16,
        forall|i: int| 0 <= i < 16 ==> hex_alphabet().contains(#[trigger] content_hash_of(json)[i]),
{
    let h = spec_fnv1a_64(vstd::utf8::encode_utf8(trim_chars(json)));
    assert forall|i: int| 0 <= i < 16 implies hex_alphabet().contains(#[trigger] content_hash_of(json)[i]) by {
        let sh: u64 = (60 - 4 * i) as u64;
        let d: u64 = nibble(h, i);
        assert(d < 16) by (bit_vector)
            requires
                d == (h >> sh) & 0xf,
        ;
        assert(hex_alphabet()[d as int] == content_hash_of(json)[i]);
    }
}

/// Texts that differ only in leading and trailing white space have the same hash.
pub proof fn lemma_content_hash_ignores_outer_space(a: Seq<char>, b: Seq<char>)
    requires
        trim_chars(a) == trim_chars(b),
    ensures
        content_hash_of(a) == content_hash_of(b),
{
}

/// Outcome counts of a synchronisation run.
pub struct SyncResult {
    pub new_count: usize,
    pub updated_count: usize,
    pub unchanged_count: usize,
    pub errors: Vec<String>,
    pub new_mpns: Vec<String>,
    pub updated_mpns: Vec<String>,
}

/// What a synchronisation run does with one imported item.
#[derive(Debug, Clone, Copy, PartialEq, Eq, Structural)]
pub enum SyncAction {
    /// The item has no MPN: it is reported as an error.
    MissingMpn,
    /// A stored component with the same hash exists: nothing changes.
    Unchanged,
    /// A stored component exists with another hash: it is updated.
    Update,
    /// No stored component exists: the item is imported as new.
    Insert,
}

/// Decision for one item: `mpn` is the item's MPN (empty when absent); `existing` is
/// `None` when no stored component matches, else `Some` of the stored hash (`None` when
/// it has none); `new_hash` is the item's content hash.
pub open spec fn sync_action_spec(mpn: Seq<char>, existing: Option<Option<Seq<char>>>, new_hash: Seq<char>) -> SyncAction {
    if mpn.len() == 0 {
        SyncAction::MissingMpn
    } else {
        match existing {
            None => SyncAction::Insert,
            Some(stored) => {
                let h = match stored {
                    Some(h) => h,
                    None => Seq::<char>::empty(),
                };
                if h == new_hash {
                    SyncAction::Unchanged
                } else {
                    SyncAction::Update
                }
            },
        }
    }
}

/// The view of an optional stored hash.
pub open spec fn stored_hash_view(existing: Option<Option<&str>>) -> Option<Option<Seq<char>>> {
    match existing {
        None => None,
        Some(None) => Some(None),
        Some(Some(h)) => Some(Some(h@)),
    }
}

/// Decide what to do with one imported item.
pub fn sync_action(mpn: &str, existing: Option<Option<&str>>, new_hash: &str) -> (a: SyncAction)
    ensures
        a == sync_action_spec(mpn@, stored_hash_view(existing), new_hash@),
{
    if mpn.unicode_len() == 0 {
        return SyncAction::MissingMpn;
    }
    match existing {
        None => {
            SyncAction::Insert
        },
        Some(stored) => {
            let h: &str = match stored {
                Some(h) => h,
                None => "",
            };
            proof {
                reveal_strlit("");
                assert(""@ =~= Seq::<char>::empty());
            }
            let hc = chars_of(h);
            assert(stored_hash_view(existing) == Some(Some(h@)) || (stored_hash_view(existing) == Some(None::<Seq<char>>) && h@ == Seq::<char>::empty()));
            if crate::text::eq_str(hc.as_slice(), new_hash) {
                SyncAction::Unchanged
            } else {
                SyncAction::Update
            }
        },
    }
}

/// The error text for an item without MPN whose JSON text has `json_len` bytes.
pub open spec fn missing_mpn_message(json_len: nat) -> Seq<char> {
    "Missing mpn in item: "@ + decimal_digits(json_len)
}

/// The error text for an item whose import failed.
pub open spec fn import_error_message(mpn: Seq<char>, err: Seq<char>) -> Seq<char> {
    mpn + ": "@ + err
}

/// The text hashed for a stored component that has no content hash yet:
/// its id in decimal, a colon, and its MPN.
pub open spec fn backfill_input(id: i64, mpn: Seq<char>) -> Seq<char> {
    decimal_text(id as int) + ":"@ + mpn
}

/// The hash given to a stored component that has none.
pub fn backfill_hash(id: i64, mpn: &str) -> (r: String)
    ensures
        r@ == content_hash_of(backfill_input(id, mpn@)),
{
    let mut v = i64_decimal(id);
    append_str(&mut v, ":");
    append_str(&mut v, mpn);
    let s = string_from_chars(v.as_slice());
    compute_content_hash(s.as_str())
}


/// One item of a synchronisation export: the string fields the run reads, and the
/// item's own JSON text (what is hashed and imported).
pub struct SyncItem {
    pub mpn: Option<String>,
    pub manufacturer: Option<String>,
    pub text: String,
    pub description: Option<String>,
    pub package: Option<String>,
}

/// The view of a synchronisation item: MPN, manufacturer, JSON text, description, package.
pub open spec fn sync_item_view(i: SyncItem) -> (Option<Seq<char>>, Option<Seq<char>>, Seq<char>, Option<Seq<char>>, Option<Seq<char>>) {
    (opt_string_view(i.mpn), opt_string_view(i.manufacturer), i.text@, opt_string_view(i.description), opt_string_view(i.package))
}

/// The views of a sequence of synchronisation items.
pub open spec fn sync_item_views(v: Seq<SyncItem>) -> Seq<(Option<Seq<char>>, Option<Seq<char>>, Seq<char>, Option<Seq<char>>, Option<Seq<char>>)> {
    Seq::new(v.len(), |k: int| sync_item_view(v[k]))
}

/// The items of a JSON array text as `serde_json` reads them: for each element, its
/// string fields `mpn`, `manufacturer`, `description` and `package` (`None` when absent
/// or not a string) and its compact re-serialisation; `None` when the text is not a
/// JSON array.
pub uninterp spec fn json_sync_items(json: Seq<char>) -> Option<Seq<(Option<Seq<char>>, Option<Seq<char>>, Seq<char>, Option<Seq<char>>, Option<Seq<char>>)>>;

/// `serde_json::from_str::<Vec<serde_json::Value>>`, then per element `Value::get` with
/// `Value::as_str` for the four fields and `serde_json::to_string` for the text (which
/// cannot fail on a `Value`). The result is a function of the text alone, named
/// `json_sync_items`; nothing is stated of which texts parse.
#[verifier::external_body]
fn parse_sync_items(json: &str) -> (r: Option<Vec<SyncItem>>)
    ensures
        match r {
            Some(v) => json_sync_items(json@) == Some(sync_item_views(v@)),
            None => json_sync_items(json@) is None,
        },
{
    let items: Vec<serde_json::Value> = serde_json::from_str(json).ok()?;
    let field = |v: &serde_json::Value, k: &str| v.get(k).and_then(|x| x.as_str()).map(|x| x.to_string());
    Some(items.iter().map(|v| SyncItem {
        mpn: field(v, "mpn"),
        manufacturer: field(v, "manufacturer"),
        text: serde_json::to_string(v).unwrap_or_default(),
        description: field(v, "description"),
        package: field(v, "package"),
    }).collect())
}

/// The error text when a synchronisation export is not a JSON array.
pub open spec fn sync_parse_error() -> Seq<char> {
    "Failed to parse sync JSON array"@
}

/// Read a synchronisation export: its items when the text is a JSON array, else the
/// parse error.
pub fn sync_items(json: &str) -> (r: Result<Vec<SyncItem>, String>)
    ensures
        match r {
            Ok(v) => json_sync_items(json@) == Some(sync_item_views(v@)),
            Err(e) => json_sync_items(json@) is None && e@ == sync_parse_error(),
        },
{
    match parse_sync_items(json) {
        Some(v) => Ok(v),
        None => {
            let c = chars_of("Failed to parse sync JSON array");
            proof {
                reveal_strlit("Failed to parse sync JSON array");
            }
            Err(string_from_chars(c.as_slice()))
        },
    }
}

/// The MPN a synchronisation run reads from an item: empty when absent.
pub open spec fn item_mpn(mpn: Option<Seq<char>>) -> Seq<char> {
    match mpn {
        Some(m) => m,
        None => Seq::empty(),
    }
}

/// Decide what a synchronisation run does with one item, given the stored component
/// found for its MPN and manufacturer (`None` when there is none; `Some` of its stored
/// hash otherwise). Returns the action and the item's content hash.
pub fn sync_decide(item: &SyncItem, stored: Option<Option<&str>>) -> (r: (SyncAction, String))
    ensures
        r.1@ == content_hash_of(item.text@),
        r.0 == sync_action_spec(item_mpn(opt_string_view(item.mpn)), stored_hash_view(stored), content_hash_of(item.text@)),
{
    let hash = compute_content_hash(item.text.as_str());
    let mpn: &str = match &item.mpn {
        Some(m) => m.as_str(),
        None => "",
    };
    proof {
        reveal_strlit("");
    }
    let a = sync_action(mpn, stored, hash.as_str());
    (a, hash)
}

/// The length in bytes of a text's UTF-8 encoding, as `str::len` gives it.
pub open spec fn utf8_len(s: Seq<char>) -> nat {
    (vstd::utf8::encode_utf8(s).len() as usize) as nat
}

/// How many items a synchronisation result accounts for: one for each new, updated and
/// unchanged component and one for each error.
pub open spec fn tally(r: SyncResult) -> int {
    r.new_count + r.updated_count + r.unchanged_count + r.errors@.len()
}

/// The lists of new and updated MPNs hold one entry per new and per updated component.
pub open spec fn lists_match(r: SyncResult) -> bool {
    r.new_mpns@.len() == r.new_count && r.updated_mpns@.len() == r.updated_count
}

/// Record the outcome of one item: `action` is what was decided for it and
/// `import_error` the error text of its import when an insertion failed. Exactly one
/// counter or the error list grows by one, so the tally grows by one.
pub fn sync_record(res: &mut SyncResult, item: &SyncItem, action: SyncAction, import_error: Option<&str>)
    requires
        old(res).new_count < usize::MAX,
        old(res).updated_count < usize::MAX,
        old(res).unchanged_count < usize::MAX,
    ensures
        tally(*final(res)) == tally(*old(res)) + 1,
        lists_match(*old(res)) ==> lists_match(*final(res)),
        match action {
            SyncAction::MissingMpn => {
                &&& final(res).errors@ == old(res).errors@.push(final(res).errors@.last())
                &&& final(res).errors@.last()@ == missing_mpn_message(utf8_len(item.text@))
                &&& final(res).new_count == old(res).new_count
                &&& final(res).updated_count == old(res).updated_count
                &&& final(res).unchanged_count == old(res).unchanged_count
                &&& final(res).new_mpns == old(res).new_mpns
                &&& final(res).updated_mpns == old(res).updated_mpns
            },
            SyncAction::Unchanged => {
                &&& final(res).unchanged_count == old(res).unchanged_count + 1
                &&& final(res).new_count == old(res).new_count
                &&& final(res).updated_count == old(res).updated_count
                &&& final(res).errors == old(res).errors
                &&& final(res).new_mpns == old(res).new_mpns
                &&& final(res).updated_mpns == old(res).updated_mpns
            },
            SyncAction::Update => {
                &&& final(res).updated_count == old(res).updated_count + 1
                &&& final(res).updated_mpns@ == old(res).updated_mpns@.push(final(res).updated_mpns@.last())
                &&& final(res).updated_mpns@.last()@ == item_mpn(opt_string_view(item.mpn))
                &&& final(res).new_count == old(res).new_count
                &&& final(res).unchanged_count == old(res).unchanged_count
                &&& final(res).errors == old(res).errors
                &&& final(res).new_mpns == old(res).new_mpns
            },
            SyncAction::Insert => match import_error {
                None => {
                    &&& final(res).new_count == old(res).new_count + 1
                    &&& final(res).new_mpns@ == old(res).new_mpns@.push(final(res).new_mpns@.last())
                    &&& final(res).new_mpns@.last()@ == item_mpn(opt_string_view(item.mpn))
                    &&& final(res).updated_count == old(res).updated_count
                    &&& final(res).unchanged_count == old(res).unchanged_count
                    &&& final(res).errors == old(res).errors
                    &&& final(res).updated_mpns == old(res).updated_mpns
                },
                Some(e) => {
                    &&& final(res).errors@ == old(res).errors@.push(final(res).errors@.last())
                    &&& final(res).errors@.last()@ == import_error_message(item_mpn(opt_string_view(item.mpn)), e@)
                    &&& final(res).new_count == old(res).new_count
                    &&& final(res).updated_count == old(res).updated_count
                    &&& final(res).unchanged_count == old(res).unchanged_count
                    &&& final(res).new_mpns == old(res).new_mpns
                    &&& final(res).updated_mpns == old(res).updated_mpns
                },
            },
        },
{
    let mpn: &str = match &item.mpn {
        Some(m) => m.as_str(),
        None => "",
    };
    proof {
        reveal_strlit("");
    }
    match action {
        SyncAction::MissingMpn => {
            let n = item.text.as_str().len();
            res.record_missing_mpn(n);
            assert(res.errors@ =~= old(res).errors@.push(res.errors@.last()));
        },
        SyncAction::Unchanged => res.record_unchanged(),
        SyncAction::Update => {
            res.record_updated(mpn);
            assert(res.updated_mpns@ =~= old(res).updated_mpns@.push(res.updated_mpns@.last()));
        },
        SyncAction::Insert => match import_error {
            None => {
                res.record_new(mpn);
                assert(res.new_mpns@ =~= old(res).new_mpns@.push(res.new_mpns@.last()));
            },
            Some(e) => {
                res.record_import_error(mpn, e);
                assert(res.errors@ =~= old(res).errors@.push(res.errors@.last()));
            },
        },
    }
}

impl SyncResult {
    /// A run in which nothing has happened yet.
    pub fn new() -> (r: SyncResult)
        ensures
            r.new_count == 0,
            r.updated_count == 0,
            r.unchanged_count == 0,
            r.errors@.len() == 0,
            r.new_mpns@.len() == 0,
            r.updated_mpns@.len() == 0,
            tally(r) == 0,
            lists_match(r),
    {
        SyncResult {
            new_count: 0,
            updated_count: 0,
            unchanged_count: 0,
            errors: Vec::new(),
            new_mpns: Vec::new(),
            updated_mpns: Vec::new(),
        }
    }

    /// Record an item that has no MPN; its JSON text has `json_len` bytes.
    pub fn record_missing_mpn(&mut self, json_len: usize)
        ensures
            final(self).errors@.len() == old(self).errors@.len() + 1,
            forall|i: int| 0 <= i < old(self).errors@.len() ==> final(self).errors@[i] == old(self).errors@[i],
            final(self).errors@.last()@ == missing_mpn_message(json_len as nat),
            final(self).new_count == old(self).new_count,
            final(self).updated_count == old(self).updated_count,
            final(self).unchanged_count == old(self).unchanged_count,
            final(self).new_mpns == old(self).new_mpns,
            final(self).updated_mpns == old(self).updated_mpns,
    {
        let mut v = chars_of("Missing mpn in item: ");
        let d = u64_decimal(json_len as u64);
        append_chars(&mut v, d.as_slice());
        self.errors.push(string_from_chars(v.as_slice()));
    }

    /// Record an item whose stored component is unchanged.
    pub fn record_unchanged(&mut self)
        requires
            old(self).unchanged_count < usize::MAX,
        ensures
            final(self).unchanged_count == old(self).unchanged_count + 1,
            final(self).new_count == old(self).new_count,
            final(self).updated_count == old(self).updated_count,
            final(self).errors == old(self).errors,
            final(self).new_mpns == old(self).new_mpns,
            final(self).updated_mpns == old(self).updated_mpns,
    {
        self.unchanged_count = self.unchanged_count + 1;
    }

    /// Record an item whose stored component was updated.
    pub fn record_updated(&mut self, mpn: &str)
        requires
            old(self).updated_count < usize::MAX,
        ensures
            final(self).updated_count == old(self).updated_count + 1,
            final(self).updated_mpns@.len() == old(self).updated_mpns@.len() + 1,
            forall|i: int| 0 <= i < old(self).updated_mpns@.len() ==> final(self).updated_mpns@[i] == old(self).updated_mpns@[i],
            final(self).updated_mpns@.last()@ == mpn@,
            final(self).new_count == old(self).new_count,
            final(self).unchanged_count == old(self).unchanged_count,
            final(self).errors == old(self).errors,
            final(self).new_mpns == old(self).new_mpns,
    {
        self.updated_count = self.updated_count + 1;
        let m = chars_of(mpn);
        self.updated_mpns.push(string_from_chars(m.as_slice()));
    }

    /// Record an item imported as a new component.
    pub fn record_new(&mut self, mpn: &str)
        requires
            old(self).new_count < usize::MAX,
        ensures
            final(self).new_count == old(self).new_count + 1,
            final(self).new_mpns@.len() == old(self).new_mpns@.len() + 1,
            forall|i: int| 0 <= i < old(self).new_mpns@.len() ==> final(self).new_mpns@[i] == old(self).new_mpns@[i],
            final(self).new_mpns@.last()@ == mpn@,
            final(self).updated_count == old(self).updated_count,
            final(self).unchanged_count == old(self).unchanged_count,
            final(self).errors == old(self).errors,
            final(self).updated_mpns == old(self).updated_mpns,
    {
        self.new_count = self.new_count + 1;
        let m = chars_of(mpn);
        self.new_mpns.push(string_from_chars(m.as_slice()));
    }

    /// Record an item whose import failed with the error text `err`.
    pub fn record_import_error(&mut self, mpn: &str, err: &str)
        ensures
            final(self).errors@.len() == old(self).errors@.len() + 1,
            forall|i: int| 0 <= i < old(self).errors@.len() ==> final(self).errors@[i] == old(self).errors@[i],
            final(self).errors@.last()@ == import_error_message(mpn@, err@),
            final(self).new_count == old(self).new_count,
            final(self).updated_count == old(self).updated_count,
            final(self).unchanged_count == old(self).unchanged_count,
            final(self).new_mpns == old(self).new_mpns,
            final(self).updated_mpns == old(self).updated_mpns,
    {
        let mut v = chars_of(mpn);
        append_str(&mut v, ": ");
        append_str(&mut v, err);
        self.errors.push(string_from_chars(v.as_slice()));
    }
}

} // verus!
