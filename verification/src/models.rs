//! What a run is configured with.

use serde_json::Value;
use vstd::prelude::*;


verus! {

/// The bounds of the pause before each request, in milliseconds.
#[derive(Clone, Copy, Debug)]
pub struct ThinkTime {
    pub min_millis: u64,
    pub max_millis: u64,
}

/// A file that is sent as a part of a multipart form.
#[derive(Clone, Debug)]
pub struct MultipartOption {
    pub form_key: String,
    pub path: String,
    pub file_name: String,
    pub mime: String,
}

/// An assertion on the body of a response: the value at a path must equal a reference.
#[derive(Clone, Debug)]
pub struct AssertOption {
    pub jsonpath: String,
    pub reference_object: Value,
}

/// A value to extract from the body of a response, and the key to keep it under.
#[derive(Clone, Debug)]
pub struct JsonpathExtract {
    pub key: String,
    pub jsonpath: String,
}

/// How the number of workers grows: by how many, and every how many seconds.
#[derive(Clone, Copy, Debug)]
pub struct StepOption {
    pub increase_step: usize,
    pub increase_interval: u64,
}

/// A request that is made before others, to extract values from its response.
#[derive(Clone, Debug)]
pub struct SetupApiEndpoint {
    pub name: String,
    pub url: String,
    pub method: String,
    pub json: Option<Value>,
    pub form_data: Option<Vec<(String, String)>>,
    pub multipart_options: Option<Vec<MultipartOption>>,
    pub headers: Option<Vec<(String, String)>>,
    pub cookies: Option<String>,
    pub jsonpath_extract: Option<Vec<JsonpathExtract>>,
}

/// A request that is made over and over during a run.
#[derive(Clone, Debug)]
pub struct ApiEndpoint {
    pub name: String,
    pub url: String,
    pub method: String,
    pub weight: u32,
    pub json: Option<Value>,
    pub form_data: Option<Vec<(String, String)>>,
    pub multipart_options: Option<Vec<MultipartOption>>,
    pub headers: Option<Vec<(String, String)>>,
    pub cookies: Option<String>,
    pub assert_options: Option<Vec<AssertOption>>,
    pub think_time_option: Option<ThinkTime>,
    pub setup_options: Option<Vec<SetupApiEndpoint>>,
}

/// An assertion as the text of its path and its reference.
pub open spec fn assertion_view(o: AssertOption) -> (Seq<char>, Value) {
    (o.jsonpath@, o.reference_object)
}

/// Assertions, one by one.
pub open spec fn assertions_view(s: Seq<AssertOption>) -> Seq<(Seq<char>, Value)> {
    Seq::new(s.len(), |i: int| assertion_view(s[i]))
}

/// A copy of a list of assertions.
pub(crate) fn assertions_clone(options: &Vec<AssertOption>) -> (r: Vec<AssertOption>)
    ensures
        assertions_view(r@) == assertions_view(options@),
{
    let mut r: Vec<AssertOption> = Vec::new();
    let mut i: usize = 0;
    while i < options.len()
        invariant
            0 <= i <= options.len(),
            assertions_view(r@) == assertions_view(options@).take(i as int),
        decreases options.len() - i,
    {
        let ghost before = assertions_view(r@);
        let copy = AssertOption {
            jsonpath: options[i].jsonpath.clone(),
            reference_object: options[i].reference_object.clone(),
        };
        r.push(copy);
        assert(assertions_view(r@) == before.push(assertion_view(copy)));
        i = i + 1;
    }
    r
}

} // verus!
