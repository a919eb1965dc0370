use vstd::prelude::*;

verus! {

/// Receives the metrics of a training run, epoch by epoch.
pub trait MetricLogger {
    /// The epoch that metrics are being logged for.
    spec fn current_epoch(&self) -> usize;

    /// Whether no metric has its output open in the current epoch.
    spec fn nothing_open(&self) -> bool;

    /// Where the metrics are written.
    spec fn destination(&self) -> Seq<char>;

    /// Closes every metric's output and starts logging for `epoch`, at the
    /// same destination.
    fn epoch(&mut self, epoch: usize)
        ensures
            final(self).current_epoch() == epoch,
            final(self).nothing_open(),
            final(self).destination() == old(self).destination(),
    ;
}

/// The file that one metric is written to in one epoch:
/// `<directory>/epoch-<epoch>/<name>.log`.
pub struct MetricFile {
    pub directory: String,
    pub epoch: usize,
    pub name: String,
}

/// Logs each metric to its own file, `<directory>/epoch-<n>/<name>.log`.
///
/// Which metrics have a file open in the current epoch is kept here; the
/// files themselves are written by the caller.
pub struct FileMetricLogger {
    loggers: Vec<String>,
    directory: String,
    epoch: usize,
}

impl FileMetricLogger {
    /// The directory that the epoch directories are made in.
    pub closed spec fn directory_view(&self) -> Seq<char> {
        self.directory@
    }

    /// The names of the metrics with a file open in the current epoch.
    pub closed spec fn open_names(&self) -> Seq<Seq<char>> {
        self.loggers@.map_values(|s: String| s@)
    }

    /// A logger for `directory`, at epoch 1, with no file open.
    pub fn new(directory: &str) -> (r: Self)
        ensures
            r.directory_view() == directory@,
            r.current_epoch() == 1,
            r.open_names() == Seq::<Seq<char>>::empty(),
            r.open_names().no_duplicates(),
    {
        let r = FileMetricLogger { loggers: Vec::new(), directory: directory.to_owned(), epoch: 1 };
        assert(r.open_names() =~= Seq::<Seq<char>>::empty());
        r
    }

    /// The epoch that metrics are being logged for.
    pub fn epoch_number(&self) -> (r: usize)
        ensures
            r == self.current_epoch(),
    {
        self.epoch
    }

    /// The directory that the epoch directories are made in.
    pub fn directory(&self) -> (r: &String)
        ensures
            r@ == self.directory_view(),
    {
        &self.directory
    }

    /// The file that metric `name` is written to in the current epoch.
    pub fn file_for(&self, name: &String) -> (r: MetricFile)
        ensures
            r.directory@ == self.directory_view(),
            r.epoch == self.current_epoch(),
            r.name@ == name@,
    {
        MetricFile { directory: self.directory.clone(), epoch: self.epoch, name: name.clone() }
    }

    /// Closes every file and starts logging for `epoch`.
    pub fn begin_epoch(&mut self, epoch: usize)
        ensures
            final(self).current_epoch() == epoch,
            final(self).open_names() == Seq::<Seq<char>>::empty(),
            final(self).open_names().no_duplicates(),
            final(self).directory_view() == old(self).directory_view(),
    {
        self.loggers.clear();
        self.epoch = epoch;
        assert(self.open_names() =~= Seq::<Seq<char>>::empty());
    }

    /// Notes that metric `name` is about to be logged. Returns true where no
    /// file is open for it yet in this epoch (the caller then opens one), and
    /// false where one is.
    pub fn open(&mut self, name: &String) -> (r: bool)
        requires
            old(self).open_names().no_duplicates(),
        ensures
            final(self).open_names().no_duplicates(),
            r == !old(self).open_names().contains(name@),
            final(self).open_names() == if r {
                old(self).open_names().push(name@)
            } else {
                old(self).open_names()
            },
            final(self).directory_view() == old(self).directory_view(),
            final(self).current_epoch() == old(self).current_epoch(),
    {
        let mut i: usize = 0;
        while i < self.loggers.len()
            invariant
                i <= self.loggers@.len(),
                self.open_names().no_duplicates(),
                forall|k: int| 0 <= k < i ==> self.open_names()[k] != name@,
            decreases self.loggers@.len() - i,
        {
            if self.loggers[i].eq(name) {
                assert(self.open_names()[i as int] == name@);
                return false;
            }
            i = i + 1;
        }
        self.loggers.push(name.clone());
        assert(self.open_names() =~= old(self).open_names().push(name@));
        assert(!old(self).open_names().contains(name@)) by {
            if old(self).open_names().contains(name@) {
                let k = choose|k: int| 0 <= k < old(self).open_names().len() && old(self).open_names()[k] == name@;
                assert(self.open_names()[k] != name@);
            }
        }
        true
    }
}

impl MetricLogger for FileMetricLogger {
    closed spec fn current_epoch(&self) -> usize {
        self.epoch
    }

    closed spec fn nothing_open(&self) -> bool {
        self.open_names().len() == 0
    }

    closed spec fn destination(&self) -> Seq<char> {
        self.directory@
    }

    /// Closes every file and starts logging for `epoch`.
    fn epoch(&mut self, epoch: usize) {
        self.begin_epoch(epoch);
    }
}

} // verus!
