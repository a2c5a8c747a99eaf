//! Building the XML requests sent to the simulator.
use vstd::prelude::*;
use vstd::string::StringExecFns;

verus! {

/// Text building for the simulator protocol.
pub struct Codec;

/// The opening of a sensor request.
pub open spec fn request_head() -> Seq<char> {
    "<Actions> <SensorRequests "@
}

/// The close of a sensor request.
pub open spec fn request_tail() -> Seq<char> {
    "/> </Actions>"@
}

/// The attribute that asks for sensor `id`, with its trailing space.
pub open spec fn request_attr(id: Seq<char>) -> Seq<char> {
    id + "=\"Yes\" "@
}

/// The attributes asking for each sensor in `ids`, in order.
pub open spec fn request_attrs(ids: Seq<Seq<char>>) -> Seq<char>
    decreases ids.len(),
{
    if ids.len() == 0 {
        Seq::empty()
    } else {
        request_attrs(ids.drop_last()) + request_attr(ids.last())
    }
}

impl Codec {
    /// The request for the single sensor `id`:
    /// `<Actions> <SensorRequests ID="Yes"/> </Actions>`.
    pub fn build_sensor_request(id: &str) -> (r: String)
        ensures
            r@ == request_head() + id@ + "=\"Yes\""@ + request_tail(),
    {
        let mut s = String::from_str("<Actions> <SensorRequests ");
        s.append(id);
        s.append("=\"Yes\"");
        s.append("/> </Actions>");
        s
    }

    /// The request for the sensors `ids`, one `ID="Yes" ` attribute each:
    /// `<Actions> <SensorRequests A="Yes" B="Yes" /> </Actions>`.
    pub fn build_sensor_requests(ids: &[&str]) -> (r: String)
        ensures
            r@ == request_head() + request_attrs(ids@.map_values(|id: &str| id@)) + request_tail(),
    {
        let ghost views = ids@.map_values(|id: &str| id@);
        let mut req_str = String::from_str("<Actions> <SensorRequests ");
        let mut i: usize = 0;
        proof {
            assert(views.take(0) =~= Seq::<Seq<char>>::empty());
            assert(req_str@ =~= request_head() + request_attrs(views.take(0)));
        }
        while i < ids.len()
            invariant
                i <= ids@.len(),
                views == ids@.map_values(|id: &str| id@),
                req_str@ == request_head() + request_attrs(views.take(i as int)),
            decreases ids@.len() - i,
        {
            let id = ids[i];
            req_str.append(id);
            req_str.append("=\"Yes\" ");
            proof {
                assert(views.take(i + 1).drop_last() =~= views.take(i as int));
                assert(views.take(i + 1).last() == id@);
                assert(req_str@ =~= request_head() + request_attrs(views.take(i + 1)));
            }
            i = i + 1;
        }
        req_str.append("/> </Actions>");
        proof {
            assert(views.take(ids@.len() as int) =~= views);
        }
        req_str
    }
}


/// A sensor request reads `<Actions> <SensorRequests `, then for each
/// requested sensor its name followed by `="Yes" `, in the order given, then
/// `/> </Actions>`.
pub proof fn lemma_request_text(ids: Seq<Seq<char>>, id: Seq<char>)
    ensures
        request_head() == "<Actions> <SensorRequests "@,
        request_tail() == "/> </Actions>"@,
        request_attrs(Seq::<Seq<char>>::empty()) == Seq::<char>::empty(),
        request_attrs(ids.push(id)) == request_attrs(ids) + id + "=\"Yes\" "@,
{
    assert(ids.push(id).drop_last() =~= ids);
}

} // verus!
