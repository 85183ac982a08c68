//! Shader objects and bundles: named byte blobs, stored one per name.
//!
//! Reading a bundle from disk and writing one back are the host program's
//! concern; the bundle itself is the verified store.

use vstd::prelude::*;

verus! {

/// A compiled shader: a name and its bytes.
pub struct ShaderObj {
    name: String,
    data: Vec<u8>,
}

impl ShaderObj {
    pub closed spec fn spec_name(&self) -> Seq<char> {
        self.name@
    }

    pub closed spec fn spec_data(&self) -> Seq<u8> {
        self.data@
    }

    pub fn new(name: String, data: Vec<u8>) -> (r: ShaderObj)
        ensures
            r.spec_name() == name@,
            r.spec_data() == data@,
    {
        ShaderObj { name, data }
    }

    pub fn data(&self) -> (r: &[u8])
        ensures
            r@ == self.spec_data(),
    {
        self.data.as_slice()
    }

    pub fn name(&self) -> (r: &str)
        ensures
            r@ == self.spec_name(),
    {
        self.name.as_str()
    }
}

/// A set of shaders, at most one per name.
pub struct ShaderBundle {
    shaders: Vec<ShaderObj>,
}

impl ShaderBundle {
    /// The stored shaders, in insertion order.
    pub closed spec fn entries(&self) -> Seq<ShaderObj> {
        self.shaders@
    }

    pub open spec fn has_name(&self, name: Seq<char>) -> bool {
        exists|i: int| 0 <= i < self.entries().len() && (#[trigger] self.entries()[i]).spec_name() == name
    }

    /// At most one shader per name.
    pub open spec fn wf(&self) -> bool {
        forall|i: int, j: int|
            0 <= i < j < self.entries().len() ==> (#[trigger] self.entries()[i]).spec_name() != (
            #[trigger] self.entries()[j]).spec_name()
    }

    pub fn new() -> (r: ShaderBundle)
        ensures
            r.entries() == Seq::<ShaderObj>::empty(),
            r.wf(),
    {
        ShaderBundle { shaders: Vec::new() }
    }

    /// Stores `shader` under its name, replacing any shader already stored
    /// under the same name.
    pub fn add(&mut self, shader: ShaderObj)
        ensures
            !old(self).has_name(shader.spec_name()) ==> final(self).entries() == old(self).entries().push(shader),
            old(self).has_name(shader.spec_name()) ==> exists|i: int|
                0 <= i < old(self).entries().len() && (#[trigger] old(self).entries()[i]).spec_name()
                    == shader.spec_name() && final(self).entries() == old(self).entries().update(i, shader),
            old(self).wf() ==> final(self).wf(),
    {
        let n = self.shaders.len();
        let ghost pre = self.shaders@;
        let ghost sh = shader;
        for i in 0..n
            invariant
                n == self.shaders@.len(),
                self.shaders@ == pre,
                pre == old(self).entries(),
                sh == shader,
                forall|k: int| 0 <= k < i ==> (#[trigger] pre[k]).spec_name() != sh.spec_name(),
        {
            if self.shaders[i].name == shader.name {
                proof {
                    assert(pre[i as int].spec_name() == sh.spec_name());
                    assert(old(self).entries()[i as int].spec_name() == sh.spec_name());
                    assert(old(self).has_name(sh.spec_name()));
                }
                let entry = &mut self.shaders[i];
                *entry = shader;
                proof {
                    assert(self.shaders@ == pre.update(i as int, sh));
                    assert(old(self).wf() ==> final(self).wf()) by {
                        if old(self).wf() {
                            assert forall|a: int, b: int|
                                0 <= a < b < self.shaders@.len() implies (
                            #[trigger] self.shaders@[a]).spec_name() != (
                            #[trigger] self.shaders@[b]).spec_name() by {
                                if a != i as int && b != i as int {
                                    assert(self.shaders@[a] == pre[a]);
                                    assert(self.shaders@[b] == pre[b]);
                                    assert(old(self).entries()[a].spec_name() != old(
                                        self,
                                    ).entries()[b].spec_name());
                                } else if a == i as int {
                                    assert(self.shaders@[a] == sh);
                                    assert(self.shaders@[b] == pre[b]);
                                    assert(old(self).entries()[i as int].spec_name() != old(
                                        self,
                                    ).entries()[b].spec_name());
                                } else {
                                    assert(self.shaders@[b] == sh);
                                    assert(self.shaders@[a] == pre[a]);
                                    assert(old(self).entries()[a].spec_name() != old(
                                        self,
                                    ).entries()[i as int].spec_name());
                                }
                            }
                        }
                    }
                }
                return ;
            }
        }
        proof {
            if old(self).has_name(sh.spec_name()) {
                let k = choose|k: int|
                    0 <= k < old(self).entries().len() && (#[trigger] old(self).entries()[k]).spec_name()
                        == sh.spec_name();
                assert(pre[k].spec_name() == sh.spec_name());
                assert(false);
            }
        }
        self.shaders.push(shader);
        proof {
            assert(self.shaders@ == pre.push(sh));
            assert(old(self).wf() ==> final(self).wf()) by {
                if old(self).wf() {
                    assert forall|a: int, b: int|
                        0 <= a < b < self.shaders@.len() implies (
                    #[trigger] self.shaders@[a]).spec_name() != (
                    #[trigger] self.shaders@[b]).spec_name() by {
                        if b < pre.len() {
                            assert(self.shaders@[a] == pre[a]);
                            assert(self.shaders@[b] == pre[b]);
                            assert(old(self).entries()[a].spec_name() != old(
                                self,
                            ).entries()[b].spec_name());
                        } else {
                            assert(self.shaders@[b] == sh);
                            assert(self.shaders@[a] == pre[a]);
                            assert(pre[a].spec_name() != sh.spec_name());
                        }
                    }
                }
            }
        }
    }

    /// Looks a shader up by name.
    pub fn get(&self, name: &String) -> (r: Option<&ShaderObj>)
        ensures
            match r {
                Some(s) => s.spec_name() == name@ && self.has_name(name@) && (exists|i: int|
                    0 <= i < self.entries().len() && *s == #[trigger] self.entries()[i]),
                None => !self.has_name(name@),
            },
    {
        let n = self.shaders.len();
        for i in 0..n
            invariant
                n == self.entries().len(),
                forall|k: int| 0 <= k < i ==> (#[trigger] self.entries()[k]).spec_name() != name@,
        {
            if self.shaders[i].name == *name {
                proof {
                    assert(self.entries()[i as int].spec_name() == name@);
                }
                return Some(&self.shaders[i]);
            }
        }
        proof {
            if self.has_name(name@) {
                let k = choose|k: int|
                    0 <= k < self.entries().len() && (#[trigger] self.entries()[k]).spec_name()
                        == name@;
                assert(false);
            }
        }
        None
    }

    /// The stored shaders, for iteration.
    pub fn as_slice(&self) -> (r: &[ShaderObj])
        ensures
            r@ == self.entries(),
    {
        self.shaders.as_slice()
    }

    /// How many shaders are stored.
    pub fn len(&self) -> (r: usize)
        ensures
            r == self.entries().len(),
    {
        self.shaders.len()
    }
}

} // verus!
