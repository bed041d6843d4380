//! Decisions at the start of the program: the view, the interface, the number of
//! host bands, and what is said about them.

use crate::bands::{mode_alias, Mode};
use crate::text::{join, joined, lower, pad, padded, same_text, texts};
use vstd::prelude::*;
use vstd::string::*;

verus! {

/// Where to capture: on the device at a place of the list, or on the default
/// one.
#[derive(Copy, Clone, Debug, PartialEq, Eq, Structural)]
pub enum DeviceChoice {
    Named(usize),
    Default,
}

/// What the program was asked to do.
#[derive(Copy, Clone, Debug, PartialEq, Eq, Structural)]
pub enum Request {
    /// List the devices.
    List,
    Capture(Mode, DeviceChoice),
}

pub open spec fn unknown_mode(mode: Seq<char>) -> Seq<char> {
    "unknown mode '"@ + mode + "' (protocol|ports|hosts|hybrid|sizes)"@
}

pub open spec fn unknown_interface(name: Seq<char>) -> Seq<char> {
    "interface '"@ + name + "' not found (try --list)"@
}

/// What is to be done, or what is wrong with the request.
pub open spec fn plan_of(
    list: bool,
    mode: Seq<char>,
    interface: Option<Seq<char>>,
    names: Seq<Seq<char>>,
) -> Result<Request, Seq<char>> {
    if list {
        Ok(Request::List)
    } else {
        match mode_alias(lower(mode)) {
            None => Err(unknown_mode(mode)),
            Some(m) => match interface {
                None => Ok(Request::Capture(m, DeviceChoice::Default)),
                Some(name) => match names.index_of_first(name) {
                    Some(i) => Ok(Request::Capture(m, DeviceChoice::Named(i as usize))),
                    None => Err(unknown_interface(name)),
                },
            },
        }
    }
}

/// A listing needs neither a known mode nor a known interface. A capture needs a
/// mode word that is known in small letters, and, if an interface is named, a
/// device of exactly that name: the first one is taken.
pub proof fn lemma_plan(
    mode: Seq<char>,
    interface: Option<Seq<char>>,
    names: Seq<Seq<char>>,
)
    requires
        names.len() <= usize::MAX,
    ensures
        plan_of(true, mode, interface, names) == Ok::<Request, Seq<char>>(Request::List),
        ({
            let r = plan_of(false, mode, interface, names);
            &&& r is Ok <==> mode_alias(lower(mode)) is Some && (interface matches Some(name)
                ==> names.contains(name))
            &&& r matches Ok(request) ==> {
                &&& request matches Request::Capture(m, place)
                &&& mode_alias(lower(mode)) == Some(m)
                &&& place is Default <==> interface is None
                &&& place matches DeviceChoice::Named(i) ==> {
                    &&& i < names.len()
                    &&& interface == Some(names[i as int])
                    &&& forall|j: int| 0 <= j < i ==> #[trigger] names[j] != names[i as int]
                }
            }
            &&& mode_alias(lower(mode)) is None ==> r == Err::<Request, Seq<char>>(
                "unknown mode '"@ + mode + "' (protocol|ports|hosts|hybrid|sizes)"@,
            )
            &&& mode_alias(lower(mode)) is Some ==> (r matches Err(e) ==> interface is Some && e
                == "interface '"@ + interface->0 + "' not found (try --list)"@)
        }),
{
    if let Some(name) = interface {
        names.index_of_first_ensures(name);
        if let Some(i) = names.index_of_first(name) {
            assert(names.contains(name));
        }
    }
}

/// The index of a name in a list of device names.
pub fn find_device(names: &Vec<String>, name: &str) -> (r: Option<usize>)
    ensures
        texts(names@).index_of_first(name@) == (match r {
            Some(i) => Some(i as int),
            None => None,
        }),
{
    let ghost list = texts(names@);
    proof {
        list.index_of_first_ensures(name@);
    }
    let mut i: usize = 0;
    while i < names.len()
        invariant
            i <= names@.len(),
            list == texts(names@),
            forall|j: int| 0 <= j < i ==> list[j] != name@,
            match list.index_of_first(name@) {
                Some(k) => 0 <= k < list.len() && list[k] == name@ && forall|j: int|
                    0 <= j < k ==> list[j] != name@,
                None => !list.contains(name@),
            },
        decreases names@.len() - i,
    {
        assert(list[i as int] == names@[i as int]@);
        if same_text(names[i].as_str(), name) {
            return Some(i);
        }
        i += 1;
    }
    None
}

/// Decide what to do, or what is wrong with the request: first the mode, then
/// the interface. Listing asks for nothing else.
pub fn plan(list: bool, mode: &str, interface: Option<&str>, names: &Vec<String>) -> (r: Result<
    Request,
    String,
>)
    ensures
        plan_of(
            list,
            mode@,
            match interface {
                Some(name) => Some(name@),
                None => None,
            },
            texts(names@),
        ) == (match r {
            Ok(request) => Ok(request),
            Err(e) => Err(e@),
        }),
        list ==> r == Ok::<Request, String>(Request::List),
        !list ==> match mode_alias(lower(mode@)) {
            None => r matches Err(e) && e@ == unknown_mode(mode@),
            Some(m) => match interface {
                None => r == Ok::<Request, String>(Request::Capture(m, DeviceChoice::Default)),
                Some(name) => match texts(names@).index_of_first(name@) {
                    Some(i) => r == Ok::<Request, String>(
                        Request::Capture(m, DeviceChoice::Named(i as usize)),
                    ) && i < names@.len() && names@[i]@ == name@,
                    None => r matches Err(e) && e@ == unknown_interface(name@),
                },
            },
        },
{
    if list {
        return Ok(Request::List);
    }
    match Mode::from_str(mode) {
        None => {
            let mut e = "unknown mode '".to_owned();
            e.append(mode);
            e.append("' (protocol|ports|hosts|hybrid|sizes)");
            Err(e)
        },
        Some(m) => match interface {
            None => Ok(Request::Capture(m, DeviceChoice::Default)),
            Some(name) => {
                proof {
                    texts(names@).index_of_first_ensures(name@);
                }
                match find_device(names, name) {
                    Some(i) => Ok(Request::Capture(m, DeviceChoice::Named(i))),
                    None => {
                        let mut e = "interface '".to_owned();
                        e.append(name);
                        e.append("' not found (try --list)");
                        Err(e)
                    },
                }
            },
        },
    }
}

/// Whether a number of host bands is allowed, and the error if it is not.
pub fn check_hosts(hosts: usize) -> (r: Result<(), &'static str>)
    ensures
        r is Ok <==> 4 <= hosts <= 24,
        r matches Err(e) ==> e@ == "--hosts must be between 4 and 24"@,
{
    if hosts < 4 || hosts > 24 {
        Err("--hosts must be between 4 and 24")
    } else {
        Ok(())
    }
}

/// A line of the device list: the name, padded to 16 characters, and the
/// addresses.
pub fn listing_line(name: &str, addrs: &Vec<String>) -> (r: String)
    ensures
        r@ == padded(name@, 16) + " "@ + joined(texts(addrs@), ", "@),
{
    let mut r = pad(name, 16);
    r.append(" ");
    r.append(join(addrs, ", ").as_str());
    r
}

/// The note about a device without addresses.
pub fn no_address_note(name: &str) -> (r: String)
    ensures
        r@ == "note: '"@ + name@
            + "' reports no addresses; direction (in/out) detection will treat all traffic as inbound"@,
{
    let mut r = "note: '".to_owned();
    r.append(name);
    r.append(
        "' reports no addresses; direction (in/out) detection will treat all traffic as inbound",
    );
    r
}

/// The line printed when capture starts.
pub fn banner(iface: &str) -> (r: String)
    ensures
        r@ == "netspectrum: passive capture on '"@ + iface@
            + "' -- no packets are ever transmitted"@,
{
    let mut r = "netspectrum: passive capture on '".to_owned();
    r.append(iface);
    r.append("' -- no packets are ever transmitted");
    r
}

} // verus!
