//! The chain of matched routes, from the router's base down.
use crate::loader::Loader;
use crate::matching::{resolve_path, resolved_path};
use crate::params::{no_params, ParamsMap};
use vstd::prelude::*;

verus! {

/// One matched route: its path, the parameters it captured, its loader if it
/// declares one, and the route matched inside it, if any.
pub struct RouteContext {
    pub base_path: String,
    pub path: String,
    pub params: ParamsMap,
    pub loader: Option<Loader>,
    pub child: Option<Box<RouteContext>>,
}

impl RouteContext {
    /// The route at the router's base path: no parameters, no loader, no
    /// child.
    pub fn base(path: &str) -> (r: RouteContext)
        ensures
            r.base_path@ == path@,
            r.path@ == path@,
            r.params@ == no_params(),
            r.loader is None,
            r.child is None,
    {
        RouteContext {
            base_path: String::from_str(path),
            path: String::from_str(path),
            params: ParamsMap::new(),
            loader: None,
            child: None,
        }
    }

    /// A route at `path` under the router's `base_path`.
    pub fn new(base_path: &str, path: &str, params: ParamsMap, loader: Option<Loader>) -> (r:
        RouteContext)
        ensures
            r.base_path@ == base_path@,
            r.path@ == path@,
            r.params == params,
            r.loader == loader,
            r.child is None,
    {
        RouteContext {
            base_path: String::from_str(base_path),
            path: String::from_str(path),
            params,
            loader,
            child: None,
        }
    }

    /// Resolves `to` relative to this route's path under the base.
    pub fn resolve_path(&self, to: &str) -> (r: Option<String>)
        ensures
            r matches Some(v) ==> resolved_path(self.base_path@, to@, Some(self.path@)) == Some(
                v@,
            ),
            r is None ==> resolved_path(self.base_path@, to@, Some(self.path@)) is None,
    {
        resolve_path(self.base_path.as_str(), to, Some(self.path.as_str()))
    }

    /// The route matched inside this one.
    pub fn child(&self) -> (r: Option<&RouteContext>)
        ensures
            match self.child {
                Some(c) => r == Some(&*c),
                None => r is None,
            },
    {
        match &self.child {
            Some(c) => Some(&**c),
            None => None,
        }
    }

    /// The innermost route of the chain that starts here.
    pub open spec fn innermost_spec(self) -> RouteContext
        decreases self,
    {
        match self.child {
            Some(c) => (*c).innermost_spec(),
            None => self,
        }
    }

    /// The innermost route of the chain that starts here: the one without a
    /// child.
    pub fn innermost(&self) -> (r: &RouteContext)
        ensures
            *r == self.innermost_spec(),
            r.child is None,
        decreases self,
    {
        match &self.child {
            Some(c) => c.innermost(),
            None => self,
        }
    }

    /// The resource that the loader of the innermost route has created, if
    /// that route has a loader and it has created one.
    pub fn innermost_resource(&self) -> (r: Option<u64>)
        ensures
            match self.innermost_spec().loader {
                Some(l) => match l.resource {
                    Some(c) => r == Some(c.id),
                    None => r is None,
                },
                None => r is None,
            },
    {
        let route = self.innermost();
        match &route.loader {
            Some(l) => match &l.resource {
                Some(c) => Some(c.id),
                None => None,
            },
            None => None,
        }
    }

    /// Puts `child` inside this route, replacing any route there.
    pub fn set_child(&mut self, child: RouteContext)
        ensures
            final(self).child == Some(Box::new(child)),
            final(self).base_path == old(self).base_path,
            final(self).path == old(self).path,
            final(self).params == old(self).params,
            final(self).loader == old(self).loader,
    {
        self.child = Some(Box::new(child));
    }
}

} // verus!
