use vstd::prelude::*;

verus! {

/// The payload of a "set-images" event: the two images to show.
#[derive(Debug)]
pub struct ImtrEventObject {
    pub id: i32,
    pub path_a: Option<String>,
    pub path_b: Option<String>,
}

impl ImtrEventObject {
    /// An event with no images set.
    pub fn new() -> (res: ImtrEventObject)
        ensures
            res.id == 0,
            res.path_a is None,
            res.path_b is None,
    {
        ImtrEventObject { id: 0, path_a: None, path_b: None }
    }

    /// The two images of the event; both must have been set.
    pub fn get_path(&self) -> (res: (String, String))
        requires
            self.path_a is Some,
            self.path_b is Some,
        ensures
            res.0 == self.path_a->0,
            res.1 == self.path_b->0,
    {
        let a = self.path_a.clone().unwrap();
        let b = self.path_b.clone().unwrap();
        (a, b)
    }

    /// Sets the two images of the event.
    pub fn set_path(&mut self, pa: Option<String>, pb: Option<String>)
        ensures
            final(self).id == old(self).id,
            final(self).path_a == pa,
            final(self).path_b == pb,
    {
        self.path_a = pa;
        self.path_b = pb;
    }
}

} // verus!
