//! `mem:` URIs, which name byte strings in a table.
use crate::error::{Error, ErrorKind, ErrorView, IoError, IoErrorView};
use crate::stream::{BytesSource, SeekFrom, Source};
use crate::stream;
use crate::text;
use crate::text::SLASH;
use crate::uri;
use std::sync::Arc;
use vstd::hash_map::StringHashMap;
use vstd::prelude::*;
use vstd::string::StringExecFns;

verus! {

/// The byte strings that `mem:` URIs name.
pub struct MemTable {
    map: StringHashMap<Arc<Vec<u8>>>,
}

impl View for MemTable {
    type V = Map<Seq<char>, Seq<u8>>;

    closed spec fn view(&self) -> Map<Seq<char>, Seq<u8>> {
        self.map@.map_values(|b: Arc<Vec<u8>>| b@)
    }
}

impl MemTable {
    /// An empty table.
    pub fn new() -> (r: Self)
        ensures
            r@ == Map::<Seq<char>, Seq<u8>>::empty(),
    {
        let r = MemTable { map: StringHashMap::new() };
        assert(r@ =~= Map::<Seq<char>, Seq<u8>>::empty());
        r
    }
}

/// Puts `data` under `id`, in place of what stood there.
pub fn put(table: &mut MemTable, id: &str, data: Vec<u8>)
    ensures
        final(table)@ == old(table)@.insert(id@, data@),
{
    table.map.insert(id.to_owned(), Arc::new(data));
    assert(table@ =~= old(table)@.insert(id@, data@));
}

/// Takes `id` out of the table and tells whether it was there.
pub fn remove(table: &mut MemTable, id: &str) -> (r: bool)
    ensures
        r == old(table)@.contains_key(id@),
        final(table)@ == old(table)@.remove(id@),
{
    let had = table.map.contains_key(id);
    table.map.remove(id);
    assert(table@ =~= old(table)@.remove(id@));
    had
}

/// Empties the table.
pub fn clear(table: &mut MemTable)
    ensures
        final(table)@ == Map::<Seq<char>, Seq<u8>>::empty(),
{
    table.map.clear();
    assert(table@ =~= Map::<Seq<char>, Seq<u8>>::empty());
}

/// `<Arc<Vec<u8>> as Clone>::clone` of std makes another handle on the same
/// bytes.
#[verifier::external_body]
fn share(b: &Arc<Vec<u8>>) -> (r: Arc<Vec<u8>>)
    ensures
        r@ == b@,
{
    Arc::clone(b)
}

/// What a `mem:` URI names in a table.
pub open spec fn named(u: Seq<u8>, table: Map<Seq<char>, Seq<u8>>) -> Result<Seq<u8>, ErrorView> {
    let (scheme, id) = uri::parts(u);
    let name = text::letters(id);
    if !uri::same_word(scheme, text::octets("mem"@)) {
        Err(ErrorView::InvalidData("mem driver invoked on non-mem URI: "@ + text::letters(u)))
    } else if id.len() == 0 {
        Err(ErrorView::InvalidData("mem:// URI requires a non-empty id"@))
    } else if id.contains(SLASH) {
        Err(ErrorView::InvalidData("mem:// id must not contain '/': "@ + name))
    } else if !table.contains_key(name) {
        Err(
            ErrorView::Io(
                IoErrorView {
                    kind: ErrorKind::NotFound,
                    message: "mem:// id '"@ + name + "' is not registered"@,
                    code: None,
                },
            ),
        )
    } else {
        Ok(table[name])
    }
}

/// Opens a stream over the bytes that a `mem:` URI names.
pub fn open_mem(uri_str: &str, table: &MemTable) -> (r: Result<Source, Error>)
    ensures
        match r {
            Ok(s) => {
                &&& named(text::octets(uri_str@), table@) == Ok::<_, ErrorView>(s.bytes())
                &&& s.is_steady()
                &&& s.fills()
                &&& stream::never_fails(&s)
                &&& s.pos() == 0
            },
            Err(e) => named(text::octets(uri_str@), table@) == Err::<Seq<u8>, _>(e@),
        },
{
    let (scheme, id) = uri::split(uri_str);
    proof {
        text::lemma_letters_of_octets(uri_str@);
        text::lemma_letters_of_octets(id@);
    }
    if !uri::scheme_is(scheme, "mem") {
        let mut m = "mem driver invoked on non-mem URI: ".to_owned();
        m.append(uri_str);
        return Err(Error::InvalidData(m));
    }
    if id.as_bytes().len() == 0 {
        return Err(Error::invalid("mem:// URI requires a non-empty id"));
    }
    if text::contains_byte(id, SLASH) {
        let mut m = "mem:// id must not contain '/': ".to_owned();
        m.append(id);
        return Err(Error::InvalidData(m));
    }
    match table.map.get(id) {
        None => Err(
            Error::Io(
                IoError::new(
                    ErrorKind::NotFound,
                    text::join3("mem:// id '", id, "' is not registered"),
                ),
            ),
        ),
        Some(b) => {
            let reader = MemReader { buf: share(b), pos: 0 };
            Ok(Source { stream: Box::new(reader) })
        },
    }
}

/// A stream over bytes of the table, which stay as they are whatever becomes
/// of the table.
struct MemReader {
    buf: Arc<Vec<u8>>,
    pos: u64,
}

impl BytesSource for MemReader {
    closed spec fn bytes(&self) -> Seq<u8> {
        self.buf@
    }

    closed spec fn pos(&self) -> nat {
        self.pos as nat
    }

    open spec fn is_steady(&self) -> bool {
        true
    }

    open spec fn fills(&self) -> bool {
        true
    }

    open spec fn read_fault(&self, at: nat) -> Option<IoErrorView> {
        None
    }

    open spec fn seek_fault(&self, to: nat) -> Option<IoErrorView> {
        None
    }

    fn read(&mut self, buf: &mut [u8]) -> (r: Result<usize, IoError>) {
        let data = self.buf.as_slice();
        let n = stream::read_at(data, self.pos, buf);
        if n > 0 {
            assert(self.pos + n <= data.len());
            self.pos = self.pos + n as u64;
        }
        Ok(n)
    }

    fn seek(&mut self, from: SeekFrom) -> (r: Result<u64, IoError>)
        ensures
            r matches Err(e) ==> e@.message
                == "mem:// reader: seek resolves to a negative or overflowing position"@,
    {
        match stream::seek_target(self.buf.len() as u64, self.pos, from) {
            Some(p) => {
                self.pos = p;
                Ok(p)
            },
            None => Err(
                IoError::new(
                    ErrorKind::InvalidInput,
                    "mem:// reader: seek resolves to a negative or overflowing position".to_owned(),
                ),
            ),
        }
    }
}

/// What was put under an id is what opening the id gives, whatever stood
/// there before, and every other id is as it was.
pub proof fn lemma_put_then_named(
    u: Seq<u8>,
    table: Map<Seq<char>, Seq<u8>>,
    id: Seq<char>,
    data: Seq<u8>,
)
    ensures
        ({
            let after = named(u, table.insert(id, data));
            let name = text::letters(uri::parts(u).1);
            &&& name == id && !(after matches Err(ErrorView::InvalidData(_))) ==> after == Ok::<
                _,
                ErrorView,
            >(data)
            &&& name != id ==> after == named(u, table)
        }),
{
}

/// An id that was taken out is not found, and every other id is as it was.
pub proof fn lemma_remove_then_named(u: Seq<u8>, table: Map<Seq<char>, Seq<u8>>, id: Seq<char>)
    ensures
        ({
            let after = named(u, table.remove(id));
            let name = text::letters(uri::parts(u).1);
            &&& name == id && !(after matches Err(ErrorView::InvalidData(_))) ==> (after matches Err(
                ErrorView::Io(e),
            ) && e.kind == ErrorKind::NotFound)
            &&& name != id ==> after == named(u, table)
        }),
{
}

/// In an empty table nothing is found.
pub proof fn lemma_empty_table_names_nothing(u: Seq<u8>)
    ensures
        named(u, Map::empty()) is Err,
{
}

} // verus!
