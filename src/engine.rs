//! The decisions of the WebAssembly host: the per-call context that the guest reads
//! its request from and writes its response to, and the dispatch of a request to
//! the module that serves its endpoint. Running the guest is left to the caller.
use crate::error::{ErrorKind, ErrorView, ManyError};
use crate::library::{collides, endpoint_names, endpoint_prefix, library_wf, lookup, Export, ModuleLibrary};
use vstd::prelude::*;
use vstd::string::StringExecFns;

verus! {

/// A request routed to an endpoint: the method names the endpoint.
#[derive(Debug, PartialEq, Eq)]
pub struct RequestMessage {
    pub method: Vec<u8>,
    pub data: Vec<u8>,
}

/// What the current call is about.
pub enum CallContext {
    Idle,
    /// First boot of a module, with its argument.
    Initialize(Vec<u8>),
    /// A request, with the slot for the guest's response.
    ManyRequest(RequestMessage, Option<Result<Vec<u8>, ManyError>>),
}

pub open spec fn response_view(r: Option<Result<Vec<u8>, ManyError>>) -> Option<Result<Seq<u8>, ErrorView>> {
    match r {
        Some(Ok(b)) => Some(Ok(b@)),
        Some(Err(e)) => Some(Err(e@)),
        None => None,
    }
}

/// The context of the store the guests run in.
pub struct WasmContext {
    pub call: CallContext,
}

/// What a call returns, given whether the guest trapped (and why) and what it left
/// in the response slot.
pub open spec fn call_outcome(trap: Option<Seq<char>>, slot: Option<Result<Seq<u8>, ErrorView>>) -> Result<
    Seq<u8>,
    ErrorView,
> {
    match trap {
        Some(reason) => Err((ErrorKind::GuestTrap, "trapped: "@ + reason)),
        None => match slot {
            Some(r) => r,
            None => Err((ErrorKind::Unknown, "No response."@)),
        },
    }
}

pub open spec fn bytes_result(r: Result<Vec<u8>, ManyError>) -> Result<Seq<u8>, ErrorView> {
    match r {
        Ok(b) => Ok(b@),
        Err(e) => Err(e@),
    }
}

impl WasmContext {
    pub fn new() -> (r: WasmContext)
        ensures
            r.call is Idle,
    {
        WasmContext { call: CallContext::Idle }
    }

    pub fn set_call_context(&mut self, call: CallContext)
        ensures
            final(self).call == call,
    {
        self.call = call;
    }

    /// Back to no call.
    pub fn reset(&mut self)
        ensures
            final(self).call is Idle,
    {
        self.call = CallContext::Idle;
    }

    /// The bytes the guest reads as its input: the argument of an initialization,
    /// or the data of a request.
    pub fn input(&self) -> (r: Option<&Vec<u8>>)
        ensures
            match self.call {
                CallContext::Idle => r is None,
                CallContext::Initialize(arg) => r == Some(&arg),
                CallContext::ManyRequest(m, _) => r == Some(&m.data),
            },
    {
        match &self.call {
            CallContext::Idle => None,
            CallContext::Initialize(arg) => Some(arg),
            CallContext::ManyRequest(m, _) => Some(&m.data),
        }
    }

    /// The guest sets its response. Only a request has a response slot: anywhere
    /// else this changes nothing and returns false.
    pub fn set_response(&mut self, response: Result<Vec<u8>, ManyError>) -> (r: bool)
        ensures
            r == (old(self).call is ManyRequest),
            match old(self).call {
                CallContext::ManyRequest(m, _) => final(self).call == CallContext::ManyRequest(
                    m,
                    Some(response),
                ),
                _ => final(self).call == old(self).call,
            },
    {
        match &mut self.call {
            CallContext::ManyRequest(_, slot) => {
                *slot = Some(response);
                true
            },
            _ => false,
        }
    }

    /// Ends a call: what it returns, from the trap (if any) and the response slot.
    /// The context is reset whatever the outcome.
    pub fn finish(&mut self, trap: Option<String>) -> (r: Result<Vec<u8>, ManyError>)
        ensures
            final(self).call is Idle,
            bytes_result(r) == call_outcome(
                match trap {
                    Some(t) => Some(t@),
                    None => None,
                },
                match old(self).call {
                    CallContext::ManyRequest(_, slot) => response_view(slot),
                    _ => None,
                },
            ),
    {
        let slot = match &mut self.call {
            CallContext::ManyRequest(_, slot) => slot.take(),
            _ => None,
        };
        self.call = CallContext::Idle;
        match trap {
            Some(reason) => {
                let message = "trapped: ".to_owned().concat(reason.as_str());
                Err(ManyError::with_message(ErrorKind::GuestTrap, message))
            },
            None => match slot {
                Some(response) => response,
                None => Err(ManyError::unknown("No response.")),
            },
        }
    }
}

/// The name of the export that serves `endpoint`: `"endpoint "` then the endpoint.
pub fn endpoint_export(endpoint: &Vec<u8>) -> (r: Vec<u8>)
    ensures
        r@ == endpoint_prefix() + endpoint@,
{
    let mut r: Vec<u8> = vec![101u8, 110u8, 100u8, 112u8, 111u8, 105u8, 110u8, 116u8, 32u8];
    let ghost start = r@;
    assert(start =~= endpoint_prefix());
    let mut i: usize = 0;
    while i < endpoint.len()
        invariant
            i <= endpoint@.len(),
            r@ == start + endpoint@.subrange(0, i as int),
        decreases endpoint@.len() - i,
    {
        r.push(endpoint[i]);
        i = i + 1;
        assert(r@ =~= start + endpoint@.subrange(0, i as int));
    }
    assert(endpoint@.subrange(0, endpoint@.len() as int) =~= endpoint@);
    r
}

/// The host's state between calls: the module library and the call context.
pub struct WasmEngine<M> {
    pub context: WasmContext,
    pub modules: ModuleLibrary<M>,
}

impl<M> WasmEngine<M> {
    pub fn new() -> (r: WasmEngine<M>)
        ensures
            r.context.call is Idle,
            library_wf(r.modules@),
            r.modules@.modules.len() == 0,
            r.modules@.endpoints.len() == 0,
    {
        WasmEngine { context: WasmContext::new(), modules: ModuleLibrary::new() }
    }

    /// Registers a loaded module under `name`, serving the endpoints of its exports.
    pub fn add_module(&mut self, module: M, name: Vec<u8>, exports: &Vec<Export>) -> (r: Result<
        (),
        ManyError,
    >)
        requires
            library_wf(old(self).modules@),
        ensures
            library_wf(final(self).modules@),
            final(self).context == old(self).context,
            collides(old(self).modules@.endpoints, endpoint_names(exports@)) ==> {
                &&& r matches Err(e) && e.kind == ErrorKind::DuplicateEndpoint
                &&& final(self).modules@ == old(self).modules@
            },
            !collides(old(self).modules@.endpoints, endpoint_names(exports@)) ==> {
                let idx = old(self).modules@.modules.len() as usize;
                &&& r is Ok
                &&& final(self).modules@.modules == old(self).modules@.modules.push(module)
                &&& final(self).modules@.endpoints == old(self).modules@.endpoints + endpoint_names(
                    exports@,
                ).map_values(|e: Seq<u8>| (e, idx))
                &&& final(self).modules@.names == old(self).modules@.names.push((name@, idx))
            },
    {
        self.modules.add(module, name, exports)
    }

    /// Sets up an initialization with its argument; the caller then runs `init`.
    pub fn begin_init(&mut self, arg: Vec<u8>)
        ensures
            final(self).context.call == CallContext::Initialize(arg),
            final(self).modules == old(self).modules,
    {
        self.context.set_call_context(CallContext::Initialize(arg));
    }

    /// Routes a request: the index of the module that serves its method and the
    /// name of the export to call in it, with the context set to the request and
    /// an empty response slot. Fails with `endpoint_not_found`, changing nothing,
    /// where no module serves the method.
    pub fn begin_call(&mut self, message: RequestMessage) -> (r: Result<(usize, Vec<u8>), ManyError>)
        requires
            library_wf(old(self).modules@),
        ensures
            match lookup(old(self).modules@.endpoints, message.method@) {
                None => r matches Err(e) && e.kind == ErrorKind::EndpointNotFound && final(self).context
                    == old(self).context,
                Some(i) => r matches Ok((j, name)) && j == i && i < old(self).modules@.modules.len()
                    && name@ == endpoint_prefix() + message.method@
                    && final(self).context.call == CallContext::ManyRequest(message, None),
            },
            final(self).modules == old(self).modules,
    {
        match self.modules.endpoint_index(message.method.as_slice()) {
            Some(i) => {
                let export = endpoint_export(&message.method);
                self.context.set_call_context(CallContext::ManyRequest(message, None));
                Ok((i, export))
            },
            None => Err(ManyError::new(ErrorKind::EndpointNotFound, "Endpoint not found")),
        }
    }

    /// Ends a call or an initialization; see `WasmContext::finish`.
    pub fn finish_call(&mut self, trap: Option<String>) -> (r: Result<Vec<u8>, ManyError>)
        ensures
            final(self).context.call is Idle,
            final(self).modules == old(self).modules,
            bytes_result(r) == call_outcome(
                match trap {
                    Some(t) => Some(t@),
                    None => None,
                },
                match old(self).context.call {
                    CallContext::ManyRequest(_, slot) => response_view(slot),
                    _ => None,
                },
            ),
    {
        self.context.finish(trap)
    }
}

} // verus!
