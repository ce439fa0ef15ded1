use the_rack::exceptions::{Fault, TrapFrame};
use the_rack::frames::init;
use the_rack::ipc::{Table, EDEAD, EFAULT, EINVAL, KERNEL};
use the_rack::memory::Memory;
use the_rack::notify::{post, Notifications};
use the_rack::paging;
use the_rack::syscall::{
    dispatch, fault_info, fault_wait, finish_recv, finish_send, restart, Next, EPERM,
    SYS_BORROW_READ, SYS_BORROW_WRITE, SYS_EXIT, SYS_GETPID, SYS_RECV, SYS_REPLY, SYS_SEND,
    SYS_WRITE, SYS_YIELD,
};
use the_rack::tasks::{self, Kernel, Priority, TaskId};

const BASE: u64 = 0x4000_0000;
const SIZE: u64 = 0x20_0000;
const PAGE: u64 = 0x7f_f000;

static PROGRAM: [u8; 4] = [1, 2, 3, 4];

struct World {
    k: Kernel,
    t: Table,
    n: Notifications,
}

fn world() -> World {
    let mut k = Kernel::new(
        init(BASE, SIZE, BASE + 0x4000),
        Memory::new(BASE, SIZE as usize),
        0xffff_0000_0000_0000,
        1,
        2,
    );
    tasks::init_address_spaces(&mut k);
    tasks::init(&mut k);
    World { k, t: Table::new(), n: Notifications::new() }
}

fn frame(number: u64, args: [u64; 8]) -> TrapFrame {
    let mut x = [0x5a5a; 31];
    x[..8].copy_from_slice(&args);
    x[8] = number;
    TrapFrame { x, elr: 0x40_0010, spsr: 0, esr: 0x5600_0000, far: 0 }
}

impl World {
    fn task(&mut self, name: &'static str, priority: u8) -> TaskId {
        tasks::spawn_user_program(&mut self.k, name, &PROGRAM, 0, Priority(priority))
    }

    fn put(&mut self, id: TaskId, va: u64, bytes: &[u8]) {
        let root = tasks::space_root_of(&self.k.scheduler, id).unwrap();
        let pa = paging::translate(&self.k.memory, root, va).unwrap();
        self.k.memory.write(pa, bytes);
    }

    fn call(&mut self, f: &mut TrapFrame) -> Next {
        dispatch(&mut self.k, &mut self.t, &mut self.n, f)
    }

    /// A call that returns at once: its three results.
    fn quick(&mut self, number: u64, args: [u64; 8]) -> (u64, u64, u64) {
        let mut f = frame(number, args);
        let next = self.call(&mut f);
        assert!(matches!(next, Next::Return | Next::Yield));
        assert_eq!(f.elr, 0x40_0010);
        assert_eq!(f.x[9], 0x5a5a);
        (f.x[0], f.x[1], f.x[2])
    }
}

#[test]
fn text_is_written_to_the_console() {
    let mut w = world();
    let me = w.task("writer", Priority::NORMAL);
    w.k.scheduler.current = me.0;
    w.put(me, PAGE, "hello \u{e9}".as_bytes());
    let mut f = frame(SYS_WRITE, [1, PAGE, 8, 0, 0, 0, 0, 0]);
    let Next::Print(bytes) = w.call(&mut f) else { panic!("nothing to print") };
    assert_eq!(bytes, "hello \u{e9}".as_bytes().to_vec());
    assert_eq!((f.x[0], f.x[1], f.x[2]), (8, 0, 0));
    // The terminal gets its carriage return; the caller is told what it wrote.
    w.put(me, PAGE, b"a\nb");
    let mut f = frame(SYS_WRITE, [1, PAGE, 3, 0, 0, 0, 0, 0]);
    let Next::Print(bytes) = w.call(&mut f) else { panic!("nothing to print") };
    assert_eq!(bytes, b"a\r\nb".to_vec());
    assert_eq!(f.x[0], 3);
}

#[test]
fn what_is_not_text_is_not_written() {
    let mut w = world();
    let me = w.task("writer", Priority::NORMAL);
    w.k.scheduler.current = me.0;
    w.put(me, PAGE, &[b'a', 0xff, b'b', 0xe9]);
    assert_eq!(w.quick(SYS_WRITE, [1, PAGE, 4, 0, 0, 0, 0, 0]), (EINVAL, 0, 0));
    assert_eq!(w.quick(SYS_WRITE, [2, PAGE, 1, 0, 0, 0, 0, 0]), (EINVAL, 0, 0));
    assert_eq!(w.quick(SYS_WRITE, [1, PAGE, 4097, 0, 0, 0, 0, 0]), (EINVAL, 0, 0));
}

#[test]
fn a_kernel_pointer_is_refused() {
    let mut w = world();
    let me = w.task("writer", Priority::NORMAL);
    w.k.scheduler.current = me.0;
    let kernel = 0xffff_0000_4008_0000;
    assert_eq!(w.quick(SYS_WRITE, [1, kernel, 16, 0, 0, 0, 0, 0]), (EFAULT, 0, 0));
    assert_eq!(w.quick(SYS_WRITE, [1, PAGE + 4090, 16, 0, 0, 0, 0, 0]), (EFAULT, 0, 0));
    // The same address again, with a bit no address has.
    assert_eq!(w.quick(SYS_WRITE, [1, PAGE + (1 << 48), 1, 0, 0, 0, 0, 0]), (EFAULT, 0, 0));
    // A task with no address space has nothing to write from.
    w.k.scheduler.current = 0;
    assert_eq!(w.quick(SYS_WRITE, [1, PAGE, 1, 0, 0, 0, 0, 0]), (EFAULT, 0, 0));
}

#[test]
fn every_call_writes_every_result_register() {
    let mut w = world();
    let me = w.task("caller", Priority::NORMAL);
    w.k.scheduler.current = me.0;
    let args = [9; 8];
    assert_eq!(w.quick(SYS_GETPID, args), (me.0 as u64, 0, 0));
    assert_eq!(w.quick(SYS_YIELD, args), (0, 0, 0));
    assert_eq!(w.quick(SYS_SEND, args), (EINVAL, 0, 0));
    assert_eq!(w.quick(SYS_REPLY, args), (EINVAL, 0, 0));
    assert_eq!(w.quick(SYS_BORROW_READ, args), (EINVAL, 0, 0));
    assert_eq!(w.quick(SYS_BORROW_WRITE, args), (EINVAL, 0, 0));
    assert_eq!(w.quick(SYS_RECV, args), (EFAULT, 0, 0));
    assert_eq!(w.quick(9, args), (EINVAL, 0, 0));
    assert_eq!(w.quick(u64::MAX, args), (EINVAL, 0, 0));
}

#[test]
fn an_exit_leaves_its_code() {
    let mut w = world();
    let me = w.task("leaver", Priority::NORMAL);
    w.k.scheduler.current = me.0;
    let mut f = frame(SYS_EXIT, [17, 0, 0, 0, 0, 0, 0, 0]);
    assert!(matches!(w.call(&mut f), Next::Exit));
    assert!(tasks::finished(&w.k.scheduler, me));
    assert_eq!(tasks::exit_code(&w.k.scheduler, me), Some(17));
}

#[test]
fn a_message_travels_through_the_calls() {
    let mut w = world();
    let server = w.task("server", Priority::NORMAL);
    let client = w.task("client", Priority::HIGH);
    w.k.scheduler.current = server.0;
    let mut receiving = frame(SYS_RECV, [PAGE, 64, 0, 0, 0, 0, 0, 0]);
    assert!(matches!(w.call(&mut receiving), Next::AwaitMessage));
    tasks::park(&mut w.k);
    assert_eq!(tasks::current_id(&w.k.scheduler), client);
    w.put(client, PAGE, b"abc");
    let to = server.0 as u64;
    let mut sending = frame(SYS_SEND, [to, 5, PAGE, 3, PAGE + 64, 8, 0, 0]);
    assert!(matches!(w.call(&mut sending), Next::AwaitReply));
    tasks::park(&mut w.k);
    assert_eq!(tasks::current_id(&w.k.scheduler), server);
    finish_recv(&mut w.t, &mut w.n, server, &mut receiving);
    assert_eq!((receiving.x[0], receiving.x[1], receiving.x[2]), (client.0 as u64, 5, 3));
    let mut answering = frame(SYS_REPLY, [client.0 as u64, 6, PAGE, 3, 0, 0, 0, 0]);
    // The client is the more urgent of the two.
    assert!(matches!(w.call(&mut answering), Next::Switch));
    assert_eq!(answering.x[0], 0);
    tasks::yield_now(&mut w.k);
    assert_eq!(tasks::current_id(&w.k.scheduler), client);
    finish_send(&mut w.t, client, &mut sending);
    assert_eq!((sending.x[0], sending.x[1], sending.x[2]), (6, 3, 0));
    let root = tasks::space_root_of(&w.k.scheduler, client).unwrap();
    assert_eq!(paging::read_user(&w.k.memory, root, PAGE + 64, 3), b"abc".to_vec());
}

#[test]
fn a_notification_travels_through_the_calls() {
    let mut w = world();
    let driver = w.task("driver", Priority::HIGH);
    w.k.scheduler.current = driver.0;
    let mut receiving = frame(SYS_RECV, [PAGE, 0, 0b0001, 0, 0, 0, 0, 0]);
    assert!(matches!(w.call(&mut receiving), Next::AwaitMessage));
    tasks::park(&mut w.k);
    post(&mut w.n, &mut w.k.scheduler, driver, 0b0001);
    tasks::preempt_if_needed(&mut w.k);
    assert_eq!(tasks::current_id(&w.k.scheduler), driver);
    finish_recv(&mut w.t, &mut w.n, driver, &mut receiving);
    assert_eq!((receiving.x[0], receiving.x[1], receiving.x[2]), (KERNEL, 1, 0));
}

#[test]
fn only_the_supervisor_hears_about_faults() {
    let mut w = world();
    let victim = w.task("victim", Priority::NORMAL);
    let supervisor = w.task("supervisor", Priority::HIGH);
    let waiting = w.task("waiting", Priority::NORMAL);
    tasks::set_supervisor(&mut w.k.scheduler, supervisor);
    let id = victim.0 as u64;

    w.k.scheduler.current = waiting.0;
    assert_eq!(fault_wait(&mut w.k), Some(EPERM));
    assert_eq!(fault_info(&w.k, id), Err(EPERM));
    assert_eq!(restart(&mut w.k, &mut w.t, id), EPERM);
    let mut sending = frame(SYS_SEND, [id, 5, PAGE, 3, PAGE + 64, 8, 0, 0]);
    assert!(matches!(w.call(&mut sending), Next::AwaitReply));

    w.k.scheduler.current = supervisor.0;
    assert_eq!(fault_info(&w.k, id), Err(EINVAL));
    assert_eq!(fault_info(&w.k, 8), Err(EINVAL));
    assert_eq!(restart(&mut w.k, &mut w.t, 8), EINVAL);
    assert_eq!(fault_wait(&mut w.k), None);
    tasks::park(&mut w.k);
    assert_eq!(tasks::current_id(&w.k.scheduler), victim);

    let fault = Fault { esr: 0x9200_0046, far: 0xdead_0000, elr: 0x40_0000 };
    tasks::fault_current(&mut w.k, &mut w.t, fault);
    // Whoever was waiting on the victim is told at once.
    finish_send(&mut w.t, waiting, &mut sending);
    assert_eq!((sending.x[0], sending.x[1]), (EDEAD, 0));

    tasks::yield_now(&mut w.k);
    assert_eq!(tasks::current_id(&w.k.scheduler), supervisor);
    assert_eq!(fault_wait(&mut w.k), Some(id));
    assert_eq!(fault_info(&w.k, id), Ok(fault));
    assert_eq!(restart(&mut w.k, &mut w.t, id), 0);
    assert!(tasks::is_alive(&w.k.scheduler, victim));
    assert_eq!(restart(&mut w.k, &mut w.t, id), EINVAL);
}
