use vstd::prelude::*;
use vstd::string::StringExecFns;

verus! {

/// The configuration surface of the gateway, constructed once at startup and
/// handed to each component: the vehicle connection string, an optional
/// pub/sub session configuration file, and the topic path to publish under.
pub struct Args {
    pub connect: String,
    pub config: Option<String>,
    pub path: String,
}

/// The topic path used when the caller configures none.
pub fn default_path() -> (p: String)
    ensures
        p@ == "mavlink"@,
{
    String::from_str("mavlink")
}

/// The outbound topic: vehicle traffic is published under `<path>/out`.
pub fn out_topic(path: &str) -> (t: String)
    ensures
        t@ == path@ + "/out"@,
{
    let t = String::from_str(path);
    t.concat("/out")
}

/// The inbound topic: traffic for the vehicle is subscribed under `<path>/in`.
pub fn in_topic(path: &str) -> (t: String)
    ensures
        t@ == path@ + "/in"@,
{
    let t = String::from_str(path);
    t.concat("/in")
}

} // verus!
