//! The parameters of a proxy request.

use vstd::hash_map::StringHashMap;
use vstd::prelude::*;
use vstd::string::*;

use crate::reply::{refuse, Refusal};
use crate::text;
use crate::text::{parse_i64, parse_usize};

verus! {

/// The parameters of a query string, each name with one value.
pub struct Params {
    values: StringHashMap<String>,
}

impl View for Params {
    type V = Map<Seq<char>, Seq<char>>;

    closed spec fn view(&self) -> Map<Seq<char>, Seq<char>> {
        self.values@.map_values(|v: String| v@)
    }
}

impl Params {
    /// No parameters.
    pub fn new() -> (result: Params)
        ensures
            result@ == Map::<Seq<char>, Seq<char>>::empty(),
    {
        let result = Params { values: StringHashMap::new() };
        assert(result@ =~= Map::<Seq<char>, Seq<char>>::empty());
        result
    }

    /// Sets a parameter. A value that it had before is gone.
    pub fn insert(&mut self, name: String, value: String)
        ensures
            final(self)@ == old(self)@.insert(name@, value@),
    {
        self.values.insert(name, value);
        assert(self@ =~= old(self)@.insert(name@, value@));
    }

    /// The value of a parameter.
    pub fn get(&self, name: &str) -> (result: Option<&String>)
        ensures
            match result {
                Some(value) => self@.contains_key(name@) && self@[name@] == value@,
                None => !self@.contains_key(name@),
            },
    {
        self.values.get(name)
    }
}

/// Whether a parameter is given and not empty.
pub open spec fn is_given(params: Map<Seq<char>, Seq<char>>, name: Seq<char>) -> bool {
    params.contains_key(name) && params[name].len() > 0
}

/// Whether all parameters of a proxy request are given.
pub open spec fn is_complete(params: Map<Seq<char>, Seq<char>>) -> bool {
    is_given(params, "thread"@) && is_given(params, "chunkSize"@) && is_given(params, "url"@)
}

/// What is wrong with the parameters of a proxy request, where something is.
pub open spec fn complaint(params: Map<Seq<char>, Seq<char>>) -> Option<Seq<char>> {
    if !is_complete(params) {
        Some("参数不完整"@)
    } else if text::usize_value(params["thread"@]) is None {
        Some("thread必须为整数"@)
    } else if text::i64_value(params["chunkSize"@]) is None {
        Some("chunkSize必须为整数"@)
    } else {
        None
    }
}

/// A request needs a thread count, a chunk size and an address, none of them empty. If
/// one is missing that is said before anything else, and then that the thread count is
/// not a number, before that the chunk size is not one.
pub proof fn law_parameters(params: Map<Seq<char>, Seq<char>>)
    ensures
        ({
            let empty = Seq::<char>::empty();
            let thread = params.dom().contains("thread"@) && params["thread"@] != empty;
            let chunk = params.dom().contains("chunkSize"@) && params["chunkSize"@] != empty;
            let url = params.dom().contains("url"@) && params["url"@] != empty;
            let threads = text::usize_value(params["thread"@]);
            let size = text::i64_value(params["chunkSize"@]);
            &&& !thread || !chunk || !url ==> complaint(params) == Some("参数不完整"@)
            &&& thread && chunk && url && threads is None ==> complaint(params) == Some(
                "thread必须为整数"@,
            )
            &&& thread && chunk && url && threads is Some && size is None ==> complaint(params)
                == Some("chunkSize必须为整数"@)
            &&& thread && chunk && url && threads is Some && size is Some ==> complaint(params)
                is None
        }),
{
    assert forall|s: Seq<char>| #[trigger] s.len() == 0 implies s == Seq::<char>::empty() by {
        assert(s =~= Seq::<char>::empty());
    }
}

/// Takes the number of workers, the chunk size and the address out of the parameters of
/// a proxy request. All three have to be given, and the first two have to be integers.
pub fn extract_params(params: &Params) -> (result: Result<(usize, i64, String), Refusal>)
    ensures
        match complaint(params@) {
            Some(text) => result matches Err(refusal) && refusal.says(400, text),
            None => result matches Ok(r) && text::usize_value(params@["thread"@]) == Some(r.0)
                && text::i64_value(params@["chunkSize"@]) == Some(r.1) && r.2@ == params@["url"@],
        },
{
    let (thread, chunk, url) = match (params.get("thread"), params.get("chunkSize"), params.get("url")) {
        (Some(thread), Some(chunk), Some(url)) => (thread, chunk, url),
        _ => {
            return Err(refuse(400, "参数不完整"));
        },
    };
    if thread.as_str().is_empty() || chunk.as_str().is_empty() || url.as_str().is_empty() {
        return Err(refuse(400, "参数不完整"));
    }
    match (parse_usize(thread.as_str()), parse_i64(chunk.as_str())) {
        (None, _) => Err(refuse(400, "thread必须为整数")),
        (Some(_), None) => Err(refuse(400, "chunkSize必须为整数")),
        (Some(thread), Some(chunk)) => Ok((thread, chunk, url.clone())),
    }
}

} // verus!
