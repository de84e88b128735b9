use dfx::cache_install::{exec, Cache, CacheInstall, Environment};
use std::cell::Cell;
use std::rc::Rc;

struct CountingCache {
    installs: Rc<Cell<u32>>,
    fails: bool,
}

impl Cache<String> for CountingCache {
    fn force_install(&self) -> Result<(), String> {
        self.installs.set(self.installs.get() + 1);
        if self.fails {
            Err("disk full".to_string())
        } else {
            Ok(())
        }
    }
}

struct TestEnvironment {
    installs: Rc<Cell<u32>>,
    fails: bool,
}

impl Environment<String> for TestEnvironment {
    type Cache = CountingCache;

    fn get_cache(&self) -> CountingCache {
        CountingCache { installs: self.installs.clone(), fails: self.fails }
    }
}

struct FlakyCache {
    installs: Rc<Cell<u32>>,
}

impl Cache<u32> for FlakyCache {
    fn force_install(&self) -> Result<(), u32> {
        let attempt = self.installs.get() + 1;
        self.installs.set(attempt);
        if attempt % 3 == 0 {
            Ok(())
        } else {
            Err(attempt)
        }
    }
}

struct FlakyEnvironment {
    installs: Rc<Cell<u32>>,
}

impl Environment<u32> for FlakyEnvironment {
    type Cache = FlakyCache;

    fn get_cache(&self) -> FlakyCache {
        FlakyCache { installs: self.installs.clone() }
    }
}

#[test]
fn installs_the_cache_once() {
    let installs = Rc::new(Cell::new(0));
    let env = TestEnvironment { installs: installs.clone(), fails: false };
    assert_eq!(exec(&env, CacheInstall {}), Ok(()));
    assert_eq!(installs.get(), 1);
}

#[test]
fn hands_on_the_error_of_the_cache() {
    let installs = Rc::new(Cell::new(0));
    let env = TestEnvironment { installs: installs.clone(), fails: true };
    assert_eq!(exec(&env, CacheInstall {}), Err("disk full".to_string()));
    assert_eq!(installs.get(), 1);
}

#[test]
fn each_run_installs_whatever_the_runs_before_it_came_to() {
    let installs = Rc::new(Cell::new(0));
    let env = FlakyEnvironment { installs: installs.clone() };
    let outcomes: Vec<Result<(), u32>> = (0..6).map(|_| exec(&env, CacheInstall {})).collect();
    assert_eq!(outcomes, vec![Err(1), Err(2), Ok(()), Err(4), Err(5), Ok(())]);
    assert_eq!(installs.get(), 6);
}
