//! Fetching the data dictionary from the firmware: the host asks for it a
//! chunk at a time with `identify offset=%u count=%c`, and the firmware
//! answers `identify_response offset=%u data=%.*s`; an empty chunk ends it.
use vstd::prelude::*;
use vstd::string::StringExecFns;
use crate::data::decimal;
use crate::data::decimal_u32_text;
use crate::message::FieldValue;
use crate::message::ValueModel;
use crate::message::named_view;

verus! {

/// Number of dictionary bytes asked for at a time.
pub const IDENTIFY_CHUNK: u8 = 40;

/// A command type of the firmware: its id, the response it asks for, and
/// its text form.
pub trait McuCommand {
    const OID: u32;

    type Response;

    fn to_command_string(&self) -> String;
}

/// A request for `count` bytes of the dictionary from `offset` on.
#[derive(Debug, Clone, Copy, PartialEq, Eq, Structural)]
pub struct Identify {
    pub offset: u32,
    pub count: u8,
}

/// A chunk of the dictionary that starts at `offset`.
#[derive(Debug, Clone, PartialEq, Eq)]
pub struct IdentifyResponse {
    pub offset: u32,
    pub data: Vec<u8>,
}

/// The dictionary as received so far.
#[derive(Debug)]
pub struct DictionaryDownload {
    pub data: Vec<u8>,
    /// An empty chunk has arrived: nothing more follows.
    pub complete: bool,
}

impl Identify {
    /// The arguments of the `identify` command.
    pub fn to_args(&self) -> (r: Vec<(String, FieldValue)>)
        ensures
            named_view(r@) == seq![
                ("offset"@, ValueModel::U32(self.offset)),
                ("count"@, ValueModel::U8(self.count)),
            ],
    {
        let mut r: Vec<(String, FieldValue)> = Vec::new();
        r.push((String::from_str("offset"), FieldValue::U32(self.offset)));
        r.push((String::from_str("count"), FieldValue::U8(self.count)));
        assert(named_view(r@) =~= seq![
            ("offset"@, ValueModel::U32(self.offset)),
            ("count"@, ValueModel::U8(self.count)),
        ]);
        r
    }
}

impl Identify {
    /// The text form `identify offset=<offset> count=<count>`.
    pub fn command_text(&self) -> (r: String)
        ensures
            r@ == "identify offset="@ + decimal(self.offset as nat) + " count="@ + decimal(
                self.count as nat,
            ),
    {
        String::from_str("identify offset=").concat(decimal_u32_text(self.offset).as_str()).concat(
            " count=",
        ).concat(decimal_u32_text(self.count as u32).as_str())
    }
}

impl McuCommand for Identify {
    const OID: u32 = 1;

    type Response = IdentifyResponse;

    fn to_command_string(&self) -> String {
        self.command_text()
    }
}

impl IdentifyResponse {
    /// Reads an `identify_response` from its decoded arguments: `offset`,
    /// then `data`.
    pub fn from_values(vs: &Vec<(String, FieldValue)>) -> (r: Option<IdentifyResponse>)
        ensures
            r is Some <==> (vs@.len() == 2 && vs@[0].0@ == "offset"@ && vs@[0].1 is U32
                && vs@[1].0@ == "data"@ && vs@[1].1 is Bytes),
            r matches Some(x) ==> named_view(vs@) == seq![
                ("offset"@, ValueModel::U32(x.offset)),
                ("data"@, ValueModel::Bytes(x.data@)),
            ],
    {
        if vs.len() != 2 {
            return None;
        }
        let offset_name = String::from_str("offset");
        let data_name = String::from_str("data");
        if vs[0].0 != offset_name || vs[1].0 != data_name {
            return None;
        }
        match (&vs[0].1, &vs[1].1) {
            (FieldValue::U32(offset), FieldValue::Bytes(data)) => {
                let copy = vstd::slice::slice_to_vec(data.as_slice());
                let x = IdentifyResponse { offset: *offset, data: copy };
                assert(named_view(vs@) =~= seq![
                    ("offset"@, ValueModel::U32(x.offset)),
                    ("data"@, ValueModel::Bytes(x.data@)),
                ]);
                Some(x)
            },
            _ => None,
        }
    }
}

impl DictionaryDownload {
    pub fn new() -> (r: DictionaryDownload)
        ensures
            r.data@.len() == 0,
            !r.complete,
    {
        DictionaryDownload { data: Vec::new(), complete: false }
    }

    /// The request for the next chunk: it starts where the data so far ends.
    pub fn next_request(&self) -> (r: Identify)
        requires
            self.data@.len() <= u32::MAX,
        ensures
            r.offset == self.data@.len(),
            r.count == IDENTIFY_CHUNK,
    {
        Identify { offset: self.data.len() as u32, count: IDENTIFY_CHUNK }
    }

    /// Takes an answer. A chunk that does not start where the data so far
    /// ends, or that comes after the end, is ignored and `false` returned.
    /// An empty chunk completes the download; any other is appended.
    pub fn accept(&mut self, resp: &IdentifyResponse) -> (r: bool)
        ensures
            r == (!old(self).complete && resp.offset == old(self).data@.len()),
            !r ==> final(self).data == old(self).data && final(self).complete == old(
                self,
            ).complete,
            r ==> final(self).data@ == old(self).data@ + resp.data@ && final(self).complete == (
            resp.data@.len() == 0),
    {
        if self.complete || resp.offset as usize != self.data.len() {
            return false;
        }
        if resp.data.len() == 0 {
            self.complete = true;
            assert(self.data@ =~= old(self).data@ + resp.data@);
            return true;
        }
        let ghost start = self.data@;
        let mut i: usize = 0;
        while i < resp.data.len()
            invariant
                i <= resp.data@.len(),
                self.data@ == start + resp.data@.take(i as int),
                !self.complete,
            decreases resp.data@.len() - i,
        {
            self.data.push(resp.data[i]);
            i += 1;
            assert(self.data@ =~= start + resp.data@.take(i as int));
        }
        assert(resp.data@.take(i as int) =~= resp.data@);
        true
    }
}

} // verus!
